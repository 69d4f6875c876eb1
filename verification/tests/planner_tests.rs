use deepwoken_planner::planner::{stat_minimum_note, ActiveTab, DeepwokenApp};
use deepwoken_planner::stats::StatBlock;
use deepwoken_planner::talent::{Talent, TalentCategory};

fn named_talent(key: &str, name: &str, rarity: &str, base: [u8; 6]) -> Talent {
    Talent {
        key: key.to_owned(),
        name: name.to_owned(),
        rarity: rarity.to_owned(),
        stats: StatBlock { base, weapon: [0; 3], attunement: [0; 7] },
        requirement_notes: Vec::new(),
        variant_label: None,
    }
}

fn planner() -> DeepwokenApp {
    DeepwokenApp::new(Ok((
        vec![
            named_talent("strong::1", "Strong", "Rare", [40, 0, 0, 0, 0, 0]),
            named_talent("swift::2", "Swift", "Common", [0, 0, 30, 0, 0, 0]),
            named_talent("wise::3", "Wise", "Rare", [0, 0, 0, 0, 20, 0]),
        ],
        "Loaded.".to_owned(),
    )))
}

#[test]
fn new_planner_starts_empty() {
    let app = planner();
    assert_eq!(app.talents.len(), 3);
    assert_eq!(app.status, "Loaded.");
    assert!(app.selected_index.is_none());
    assert!(app.selected_talents.is_empty());
    assert_eq!(app.active_tab, ActiveTab::Talents);
    assert!(app.pre_stats.is_all_zero());
    assert!(app.output.is_empty());
}

#[test]
fn new_planner_reports_load_failure() {
    let app = DeepwokenApp::new(Err("offline".to_owned()));
    assert!(app.talents.is_empty());
    assert_eq!(app.status, "Failed to load talents: offline");
}

#[test]
fn filtered_talents_trims_and_lowercases_the_search() {
    let mut app = planner();
    app.search = "  RARE ".to_owned();
    assert_eq!(app.filtered_talents(), vec![0, 2]);
    app.search = "swift".to_owned();
    assert_eq!(app.filtered_talents(), vec![1]);
    app.search = "   ".to_owned();
    assert_eq!(app.filtered_talents(), vec![0, 1, 2]);
    app.search = "agility 30".to_owned();
    assert_eq!(app.filtered_talents(), vec![1]);
    app.search = "nothing".to_owned();
    assert!(app.filtered_talents().is_empty());
}

#[test]
fn adding_needs_a_selected_talent() {
    let mut app = planner();
    app.add_selected_talent(TalentCategory::Pre);
    assert_eq!(app.status, "Select a talent first.");
    assert!(app.selected_talents.is_empty());
}

#[test]
fn adding_updates_minimums() {
    let mut app = planner();
    app.selected_index = Some(0);
    app.add_selected_talent(TalentCategory::Pre);
    assert_eq!(app.status, "Added talent as PRE.");
    assert_eq!(app.selected_talents.len(), 1);
    assert_eq!(app.selected_selected_index, Some(0));
    assert_eq!(app.min_pre.base, [40, 0, 0, 0, 0, 0]);
    assert_eq!(app.min_post.base, [15, 0, 0, 0, 0, 0]);
    assert_eq!(app.pre_stats, app.min_pre);
    assert_eq!(app.post_stats, app.min_post);
    app.selected_index = Some(1);
    app.add_selected_talent(TalentCategory::Post);
    assert_eq!(app.min_post.base, [15, 0, 30, 0, 0, 0]);
    app.selected_index = Some(2);
    app.add_selected_talent(TalentCategory::Any);
    assert_eq!(app.status, "Added talent as ANY.");
    assert_eq!(app.min_pre.base, [40, 0, 0, 0, 0, 0]);
    assert_eq!(app.selected_selected_index, Some(2));
}

#[test]
fn removing_needs_a_chosen_talent() {
    let mut app = planner();
    app.remove_selected_talent();
    assert_eq!(app.status, "Select a chosen talent to remove.");
}

#[test]
fn removing_moves_selection_back() {
    let mut app = planner();
    app.selected_index = Some(0);
    app.add_selected_talent(TalentCategory::Pre);
    app.selected_index = Some(1);
    app.add_selected_talent(TalentCategory::Post);
    app.remove_selected_talent();
    assert_eq!(app.status, "Removed selected talent.");
    assert_eq!(app.selected_talents.len(), 1);
    assert_eq!(app.selected_selected_index, Some(0));
    assert_eq!(app.min_post.base, [15, 0, 0, 0, 0, 0]);
    app.remove_selected_talent();
    assert!(app.selected_talents.is_empty());
    assert!(app.selected_selected_index.is_none());
    assert!(app.min_pre.is_all_zero());
}

#[test]
fn clearing_resets_everything_chosen() {
    let mut app = planner();
    app.selected_index = Some(0);
    app.add_selected_talent(TalentCategory::Pre);
    app.output = "old".to_owned();
    app.clear_selected_talents();
    assert!(app.selected_talents.is_empty());
    assert!(app.selected_selected_index.is_none());
    assert!(app.output.is_empty());
    assert!(app.min_pre.is_all_zero());
    assert_eq!(app.status, "Cleared selected talents.");
}

#[test]
fn recalculating_resets_targets() {
    let mut app = planner();
    app.selected_index = Some(2);
    app.add_selected_talent(TalentCategory::Pre);
    app.pre_stats.base[0] = 90;
    app.recalculate_stat_minimums();
    assert_eq!(app.pre_stats.base, [0, 0, 0, 0, 20, 0]);
    assert_eq!(app.post_stats.base, [0, 0, 0, 0, 0, 0]);
}

#[test]
fn optimize_lists_inputs_then_result() {
    let mut app = planner();
    app.selected_index = Some(0);
    app.add_selected_talent(TalentCategory::Pre);
    app.optimize();
    assert_eq!(app.active_tab, ActiveTab::Output);
    assert_eq!(app.status, "Optimization complete. 290 points spare.");
    let debug = "=== DEBUG: Passing to optimizer ===\nTotal prerequisites: 3\n\
                 • Strong (PRE)\n  Strength: 40\n\
                 • Manual PRE (PRE)\n  Strength: 40\n\
                 • Manual POST (POST)\n  Strength: 15\n\n";
    assert!(app.output.starts_with(debug));
    assert!(app.output.ends_with("Strength: 40 (+0)\n"));
    assert_eq!(app.optimizer.prerequisites.len(), 3);
}

#[test]
fn optimize_reports_impossible_builds() {
    let mut app = planner();
    app.post_stats.base = [255, 255, 0, 0, 0, 0];
    app.optimize();
    assert_eq!(app.status, "Build is not possible.");
    assert_eq!(
        app.output,
        "=== DEBUG: Passing to optimizer ===\nTotal prerequisites: 1\n\
         • Manual POST (POST)\n  Strength: 255\n  Fortitude: 255\n\n\
         ERROR: Build is not possible!\nNo valid build found."
    );
}

#[test]
fn minimum_notes() {
    assert_eq!(stat_minimum_note(5, true), "min 5 (from talents)");
    assert_eq!(stat_minimum_note(12, false), "min 12 (from talents/shrine)");
    assert_eq!(stat_minimum_note(0, true), "optional");
}
