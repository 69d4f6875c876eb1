use deepwoken_planner::optimizer::{
    append_added_block, append_changed_stats, append_diff_block, append_named_stats,
    append_stat_block, format_result, BuildOptimizer, OwnedTalentPrereq,
};
use deepwoken_planner::stats::StatBlock;
use deepwoken_planner::talent::{TalentCategory, BASE_STATS};

fn rule() -> String {
    "=".repeat(41)
}

fn report(points: i32, pre: &str, diff: &str, added: &str) -> String {
    let r = rule();
    format!(
        "=== BUILD OPTIMIZATION RESULTS ===\n\n{r}\noptimal build found\n{r}\npoints spare: {points}\n\n\
         {r}\npre shrine stats\n{r}\n{pre}\n\
         {r}\npost shrine stats - before adding points\n{r}\n{diff}\n\
         {r}\npost shrine stats - after adding points\n{r}\n{added}"
    )
}

fn prereq(name: &str, base: [u8; 6], category: TalentCategory) -> OwnedTalentPrereq {
    OwnedTalentPrereq {
        name: name.to_owned(),
        stats: StatBlock { base, weapon: [0; 3], attunement: [0; 7] },
        category,
    }
}

#[test]
fn named_stats_list_nonzero_values() {
    let mut out = String::from(">");
    append_named_stats(&mut out, "  ", &BASE_STATS, &[0, 12, 0, 0, 0, 3]);
    assert_eq!(out, ">  Fortitude: 12\n  Charisma: 3\n");
}

#[test]
fn stat_block_lists_all_sections() {
    let mut out = String::new();
    let stats = StatBlock { base: [1, 0, 0, 0, 0, 0], weapon: [0, 2, 0], attunement: [0, 0, 0, 0, 0, 0, 3] };
    append_stat_block(&mut out, &stats, "- ");
    assert_eq!(out, "- Strength: 1\n- Medium Wep.: 2\n- Bloodrend: 3\n");
}

#[test]
fn changed_stats_show_signed_deltas() {
    let mut out = String::new();
    append_changed_stats(&mut out, &BASE_STATS, &[10, 5, 0, 0, 0, 0], &[7, 9, 0, 0, 0, 0], &[0, 0, 0, 4, 0, 0]);
    assert_eq!(out, "Strength: 7 (-3)\nFortitude: 9 (+4)\nIntelligence: 0 (+0)\n");
}

#[test]
fn diff_and_added_blocks() {
    let pre = StatBlock { base: [30, 0, 0, 0, 0, 0], weapon: [0; 3], attunement: [0; 7] };
    let shrine = StatBlock { base: [20, 0, 0, 0, 0, 0], weapon: [0; 3], attunement: [0; 7] };
    let post = StatBlock { base: [25, 0, 0, 0, 0, 0], weapon: [0; 3], attunement: [0; 7] };
    let final_stats = StatBlock { base: [25, 0, 0, 0, 0, 0], weapon: [0; 3], attunement: [0; 7] };
    let mut diff = String::new();
    append_diff_block(&mut diff, &pre, &shrine);
    assert_eq!(diff, "Strength: 20 (-10)\n");
    let mut added = String::new();
    append_added_block(&mut added, &shrine, &final_stats, &post);
    assert_eq!(added, "Strength: 25 (+5)\n");
}

#[test]
fn format_result_of_an_empty_build() {
    let zero = StatBlock::default();
    let text = format_result(zero, zero, zero, zero, 330);
    assert_eq!(text, report(330, "", "", ""));
}

#[test]
fn new_optimizer_is_empty() {
    let optimizer = BuildOptimizer::new();
    assert!(optimizer.prerequisites.is_empty());
    assert!(optimizer.best_result.is_none());
    assert!(optimizer.error_message.is_none());
}

#[test]
fn optimize_without_requirements_keeps_all_points() {
    let mut optimizer = BuildOptimizer::new();
    let result = optimizer.optimize_build(Vec::new()).unwrap();
    assert_eq!(result.points_spare, 330);
    assert_eq!(result.output, report(330, "", "", ""));
    assert_eq!(optimizer.best_result.unwrap().points_spare, 330);
    assert!(optimizer.error_message.is_none());
}

#[test]
fn optimize_with_one_pre_talent() {
    let mut optimizer = BuildOptimizer::new();
    let result = optimizer
        .optimize_build(vec![prereq("Strong", [40, 0, 0, 0, 0, 0], TalentCategory::Pre)])
        .unwrap();
    assert_eq!(result.points_spare, 290);
    assert_eq!(
        result.output,
        report(290, "Strength: 40\n", "Strength: 40 (+0)\n", "Strength: 40 (+0)\n")
    );
    assert_eq!(optimizer.prerequisites.len(), 1);
}

#[test]
fn optimize_any_talent_prefers_first_best_placement() {
    let mut with_any = BuildOptimizer::new();
    let any = with_any
        .optimize_build(vec![prereq("Strong", [40, 0, 0, 0, 0, 0], TalentCategory::Any)])
        .unwrap();
    let mut with_pre = BuildOptimizer::new();
    let pre = with_pre
        .optimize_build(vec![prereq("Strong", [40, 0, 0, 0, 0, 0], TalentCategory::Pre)])
        .unwrap();
    assert_eq!(any.points_spare, 290);
    assert_eq!(any.output, pre.output);
}

#[test]
fn optimize_post_talent_tries_zero_pre_first() {
    let mut optimizer = BuildOptimizer::new();
    let result = optimizer
        .optimize_build(vec![prereq("Later", [40, 0, 0, 0, 0, 0], TalentCategory::Post)])
        .unwrap();
    assert_eq!(result.points_spare, 290);
    assert_eq!(result.output, report(290, "", "", "Strength: 40 (+40)\n"));
}

#[test]
fn optimize_reports_when_no_build_fits() {
    let mut optimizer = BuildOptimizer::new();
    let error = optimizer
        .optimize_build(vec![prereq("Huge", [255, 255, 0, 0, 0, 0], TalentCategory::Post)])
        .unwrap_err();
    assert_eq!(error, "No valid build found.");
    assert_eq!(optimizer.error_message.as_deref(), Some("No valid build found."));
    assert!(optimizer.best_result.is_none());
}

#[test]
fn optimize_refuses_too_many_any_talents() {
    let mut optimizer = BuildOptimizer::new();
    let many: Vec<OwnedTalentPrereq> =
        (0..64).map(|_| prereq("Any", [1, 0, 0, 0, 0, 0], TalentCategory::Any)).collect();
    let error = optimizer.optimize_build(many).unwrap_err();
    assert_eq!(error, "Too many ANY talents to evaluate.");
    assert!(optimizer.error_message.is_none());
    assert_eq!(optimizer.prerequisites.len(), 64);
}
