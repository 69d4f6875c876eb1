use deepwoken_planner::stats::{
    all_zero, apply_derived_post_requirements, apply_post_requirements, candidate_pre_values,
    clamp_to_minimums, deficit_sum, impossible_combination, max_assign, points_needed_for_post,
    read_stat, read_zero_slot, same_values, write_stat, write_zero_slot,
    zero_to_positive_variants, StatBlock, StatSection, ZeroSlot,
};

fn block(base: [u8; 6], weapon: [u8; 3], attunement: [u8; 7]) -> StatBlock {
    StatBlock { base, weapon, attunement }
}

#[test]
fn max_with_takes_larger_of_each_stat() {
    let mut a = block([10, 0, 3, 0, 0, 0], [0, 5, 0], [1, 0, 0, 0, 0, 0, 9]);
    let b = block([5, 20, 3, 0, 0, 1], [2, 0, 0], [0, 0, 4, 0, 0, 0, 2]);
    a.max_with(&b);
    assert_eq!(a, block([10, 20, 3, 0, 0, 1], [2, 5, 0], [1, 0, 4, 0, 0, 0, 9]));
}

#[test]
fn is_all_zero_checks_every_section() {
    assert!(StatBlock::default().is_all_zero());
    let mut s = StatBlock::default();
    s.attunement[6] = 1;
    assert!(!s.is_all_zero());
    let mut w = StatBlock::default();
    w.weapon[0] = 3;
    assert!(!w.is_all_zero());
}

#[test]
fn same_stats_compares_every_stat() {
    let a = block([1, 2, 3, 4, 5, 6], [7, 8, 9], [1, 2, 3, 4, 5, 6, 7]);
    let mut b = a;
    assert!(a.same_stats(&b));
    b.attunement[3] = 0;
    assert!(!a.same_stats(&b));
}

#[test]
fn array_helpers_compare_and_merge() {
    assert!(all_zero(&[0u8, 0, 0]));
    assert!(!all_zero(&[0u8, 1, 0]));
    assert!(same_values(&[1u8, 2], &[1u8, 2]));
    assert!(!same_values(&[1u8, 2], &[2u8, 1]));
    let mut target = [1u8, 9, 3];
    max_assign(&mut target, &[4u8, 2, 3]);
    assert_eq!(target, [4, 9, 3]);
}

#[test]
fn derived_post_requirements_follow_pre() {
    let mut post = block([0, 0, 50, 0, 0, 0], [0, 0, 0], [0, 0, 0, 0, 0, 0, 0]);
    let pre = block([40, 20, 10, 0, 0, 0], [0, 0, 30], [0, 0, 0, 7, 0, 0, 0]);
    apply_derived_post_requirements(&mut post, &pre);
    assert_eq!(post, block([15, 0, 50, 0, 0, 0], [0, 0, 5], [0, 0, 0, 1, 0, 0, 0]));
}

#[test]
fn derived_post_keeps_higher_attunement() {
    let mut post = block([0; 6], [0; 3], [0, 0, 0, 6, 0, 0, 0]);
    let pre = block([0; 6], [0; 3], [0, 0, 0, 7, 0, 0, 0]);
    apply_derived_post_requirements(&mut post, &pre);
    assert_eq!(post.attunement[3], 6);
}

#[test]
fn clamp_raises_to_minimums() {
    let mut current = block([5, 30, 0, 0, 0, 0], [0, 0, 0], [0; 7]);
    let mins = block([10, 20, 0, 0, 0, 0], [0, 4, 0], [0, 0, 0, 0, 0, 0, 1]);
    clamp_to_minimums(&mut current, &mins);
    assert_eq!(current, block([10, 30, 0, 0, 0, 0], [0, 4, 0], [0, 0, 0, 0, 0, 0, 1]));
}

#[test]
fn impossible_when_trainable_stat_drops_more_than_25() {
    let pre = block([60, 0, 0, 0, 0, 0], [0; 3], [0; 7]);
    let post = block([30, 0, 0, 0, 0, 0], [0; 3], [0; 7]);
    assert!(impossible_combination(&pre, &post));
    let post_ok = block([35, 0, 0, 0, 0, 0], [0; 3], [0; 7]);
    assert!(!impossible_combination(&pre, &post_ok));
    let post_unused = block([0; 6], [0; 3], [0; 7]);
    assert!(!impossible_combination(&pre, &post_unused));
    let pre_w = block([0; 6], [0, 80, 0], [0; 7]);
    let post_w = block([0; 6], [0, 10, 0], [0; 7]);
    assert!(impossible_combination(&pre_w, &post_w));
    let pre_a = block([0; 6], [0; 3], [60, 0, 0, 0, 0, 0, 0]);
    let post_a = block([0; 6], [0; 3], [5, 0, 0, 0, 0, 0, 0]);
    assert!(!impossible_combination(&pre_a, &post_a));
}

#[test]
fn deficit_sum_counts_shortfall_only() {
    assert_eq!(deficit_sum(&[1u8, 2, 3], &[3u8, 2, 1]), 2);
    assert_eq!(deficit_sum(&[0u8; 4], &[255u8; 4]), 1020);
}

#[test]
fn points_needed_and_final_stats() {
    let shrine = block([20, 20, 0, 0, 0, 0], [0, 1, 0], [1, 0, 0, 0, 0, 0, 0]);
    let post = block([25, 10, 5, 0, 0, 0], [0, 0, 0], [3, 0, 0, 0, 0, 0, 2]);
    assert_eq!(points_needed_for_post(&shrine, &post), 5 + 5 + 2 + 2);
    let final_stats = apply_post_requirements(&shrine, &post);
    assert_eq!(final_stats, block([25, 20, 5, 0, 0, 0], [0, 1, 0], [3, 0, 0, 0, 0, 0, 2]));
}

#[test]
fn candidate_pre_values_by_post_value() {
    assert_eq!(candidate_pre_values(0), vec![0]);
    assert_eq!(candidate_pre_values(1), vec![0, 1]);
    assert_eq!(candidate_pre_values(7), vec![0, 1, 7]);
}

#[test]
fn zero_to_positive_variants_expand_each_zero_slot() {
    let pre = block([0, 12, 0, 0, 0, 0], [0; 3], [0; 7]);
    let post = block([5, 0, 0, 0, 0, 0], [0, 1, 0], [0; 7]);
    let variants = zero_to_positive_variants(&pre, &post);
    let expected: Vec<StatBlock> = [(0u8, 0u8), (0, 1), (1, 0), (1, 1), (5, 0), (5, 1)]
        .iter()
        .map(|(s, w)| block([*s, 12, 0, 0, 0, 0], [0, *w, 0], [0; 7]))
        .collect();
    assert_eq!(variants, expected);
}

#[test]
fn zero_to_positive_variants_without_zero_slots_is_pre() {
    let pre = block([3, 0, 0, 0, 0, 0], [0; 3], [0; 7]);
    let post = block([2, 0, 0, 0, 0, 0], [0; 3], [0; 7]);
    assert_eq!(zero_to_positive_variants(&pre, &post), vec![pre]);
}

#[test]
fn read_and_write_stats_by_section() {
    let mut s = StatBlock::default();
    write_stat(&mut s, StatSection::Weapon, 2, 17);
    write_stat(&mut s, StatSection::Attunement, 6, 4);
    write_stat(&mut s, StatSection::Base, 0, 9);
    assert_eq!(read_stat(&s, StatSection::Weapon, 2), 17);
    assert_eq!(read_stat(&s, StatSection::Attunement, 6), 4);
    assert_eq!(read_stat(&s, StatSection::Base, 0), 9);
    assert_eq!(s, block([9, 0, 0, 0, 0, 0], [0, 0, 17], [0, 0, 0, 0, 0, 0, 4]));
}

#[test]
fn read_and_write_zero_slots() {
    let mut s = StatBlock::default();
    write_zero_slot(&mut s, ZeroSlot::Base(5), 3);
    write_zero_slot(&mut s, ZeroSlot::Weapon(1), 8);
    write_zero_slot(&mut s, ZeroSlot::Attunement(0), 2);
    assert_eq!(read_zero_slot(&s, ZeroSlot::Base(5)), 3);
    assert_eq!(read_zero_slot(&s, ZeroSlot::Weapon(1)), 8);
    assert_eq!(read_zero_slot(&s, ZeroSlot::Attunement(0)), 2);
    assert_eq!(s, block([0, 0, 0, 0, 0, 3], [0, 8, 0], [2, 0, 0, 0, 0, 0, 0]));
}
