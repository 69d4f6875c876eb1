use deepwoken_planner::shrine::{shrine_of_order, sum_values, TOTAL_POINTS};
use deepwoken_planner::stats::StatBlock;

fn stats_of(base: [u8; 6], weapon: [u8; 3], attunement: [u8; 7]) -> StatBlock {
    StatBlock { base, weapon, attunement }
}

#[test]
fn shrine_of_unused_stats_keeps_all_points() {
    let (shrine, spare) = shrine_of_order(&StatBlock::default()).unwrap();
    assert_eq!(shrine, StatBlock::default());
    assert_eq!(spare, 330);
    assert_eq!(TOTAL_POINTS, 330);
}

#[test]
fn shrine_of_one_stat_gives_its_points_back() {
    let pre = stats_of([50, 0, 0, 0, 0, 0], [0; 3], [0; 7]);
    let (shrine, spare) = shrine_of_order(&pre).unwrap();
    assert_eq!(shrine, pre);
    assert_eq!(spare, 280);
}

#[test]
fn shrine_levels_lowest_stats_first() {
    let pre = stats_of([30, 10, 0, 0, 0, 0], [0; 3], [0; 7]);
    let (shrine, spare) = shrine_of_order(&pre).unwrap();
    assert_eq!(shrine, stats_of([20, 20, 0, 0, 0, 0], [0; 3], [0; 7]));
    assert_eq!(spare, 290);
}

#[test]
fn shrine_refunds_extra_attunements() {
    let pre = stats_of([0; 6], [0; 3], [10, 10, 0, 0, 0, 0, 0]);
    let (shrine, spare) = shrine_of_order(&pre).unwrap();
    assert_eq!(shrine, stats_of([0; 6], [0; 3], [10, 10, 0, 0, 0, 0, 0]));
    assert_eq!(spare, 311);
}

#[test]
fn shrine_raises_lowest_then_splits_evenly() {
    let pre = stats_of([30, 0, 2, 0, 0, 0], [0; 3], [0; 7]);
    let (shrine, spare) = shrine_of_order(&pre).unwrap();
    assert_eq!(shrine, stats_of([16, 0, 16, 0, 0, 0], [0; 3], [0; 7]));
    assert_eq!(spare, 298);
}

#[test]
fn shrine_leaves_points_it_cannot_split() {
    let pre = stats_of([26, 50, 1, 0, 0, 0], [0; 3], [0; 7]);
    let (shrine, spare) = shrine_of_order(&pre).unwrap();
    assert_eq!(shrine, stats_of([25, 25, 25, 0, 0, 0], [0; 3], [0; 7]));
    assert_eq!(spare, 255);
}

#[test]
fn shrine_shares_what_cannot_level_the_lowest() {
    let pre = stats_of([26, 60, 2, 0, 0, 0], [0; 3], [0; 7]);
    let (shrine, spare) = shrine_of_order(&pre).unwrap();
    assert_eq!(shrine, stats_of([26, 35, 26, 0, 0, 0], [0; 3], [0; 7]));
    assert_eq!(spare, 243);
}

#[test]
fn shrine_weapon_stats_lose_up_to_25() {
    let pre = stats_of([0; 6], [40, 0, 0], [0; 7]);
    let (shrine, spare) = shrine_of_order(&pre).unwrap();
    assert_eq!(shrine, pre);
    assert_eq!(spare, 290);
}

#[test]
fn shrine_wraps_a_stat_past_255() {
    let pre = stats_of([0; 6], [0; 3], [255, 255, 254, 0, 0, 0, 0]);
    let (shrine, spare) = shrine_of_order(&pre).unwrap();
    assert_eq!(shrine, stats_of([0; 6], [0; 3], [0, 254, 254, 0, 0, 0, 0]));
    assert_eq!(spare, -176);
}

#[test]
fn sum_values_adds_every_entry() {
    assert_eq!(sum_values(&[1u8, 2, 3, 255]), 261);
    assert_eq!(sum_values(&[0u8; 7]), 0);
}
