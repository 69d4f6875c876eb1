use deepwoken_planner::stats::StatBlock;
use deepwoken_planner::talent::{
    append_requirement_search_tokens, assign_chip_requirement, clone_texts, collect_stat_lines,
    dedup_and_sort_talents, dedup_strings, push_requirement_note, talent_listed_before, title_case,
    Talent, TalentCategory, ATTUNEMENT_STATS, BASE_STATS, WEAPON_STATS,
};

fn talent(key: &str, name: &str, rarity: &str, notes: &[&str], label: Option<&str>) -> Talent {
    Talent {
        key: key.to_owned(),
        name: name.to_owned(),
        rarity: rarity.to_owned(),
        stats: StatBlock::default(),
        requirement_notes: notes.iter().map(|n| n.to_string()).collect(),
        variant_label: label.map(|l| l.to_owned()),
    }
}

#[test]
fn category_labels() {
    assert_eq!(TalentCategory::Pre.label(), "PRE");
    assert_eq!(TalentCategory::Post.label(), "POST");
    assert_eq!(TalentCategory::Any.label(), "ANY");
}

#[test]
fn display_name_adds_variant_label() {
    assert_eq!(talent("k", "Aptitude", "Rare", &[], Some("Willpower")).display_name(), "Aptitude (Willpower)");
    assert_eq!(talent("k", "Aptitude", "Rare", &[], None).display_name(), "Aptitude");
}

#[test]
fn search_blob_lowercases_every_token() {
    let mut t = talent("Agility::1", "Agility Training", "Rare", &["Agility: 25"], Some("Light"));
    t.stats.base[2] = 25;
    assert_eq!(
        t.search_blob(),
        "agility training agility::1 rare light agility agility 25 agility: 25"
    );
}

#[test]
fn search_blob_lists_weapon_and_attunement_stats() {
    let mut t = talent("K", "N", "R", &[], None);
    t.stats.weapon[0] = 3;
    t.stats.attunement[1] = 40;
    assert_eq!(t.search_blob(), "n k r heavy wep. heavy wep. 3 frostdraw frostdraw 40");
}

#[test]
fn requirement_lines_prefer_notes() {
    let mut t = talent("k", "n", "r", &["OR Strength: 10", "Weapon: Sword"], None);
    t.stats.base[0] = 10;
    assert_eq!(t.requirement_lines(), vec!["OR Strength: 10", "Weapon: Sword"]);
}

#[test]
fn requirement_lines_from_stats() {
    let mut t = talent("k", "n", "r", &[], None);
    t.stats.base[1] = 12;
    t.stats.weapon[2] = 4;
    t.stats.attunement[0] = 9;
    assert_eq!(t.requirement_lines(), vec!["Fortitude: 12", "Light Wep.: 4", "Flamecharm: 9"]);
}

#[test]
fn requirement_lines_when_nothing_is_required() {
    assert_eq!(talent("k", "n", "r", &[], None).requirement_lines(), vec!["No stat requirements"]);
}

#[test]
fn collect_stat_lines_appends_nonzero() {
    let mut lines = vec!["first".to_owned()];
    collect_stat_lines(&mut lines, &ATTUNEMENT_STATS, &[0, 0, 5, 0, 0, 0, 1]);
    assert_eq!(lines, vec!["first", "Thundercall: 5", "Bloodrend: 1"]);
}

#[test]
fn search_tokens_for_nonzero_stats() {
    let mut tokens = Vec::new();
    append_requirement_search_tokens(&mut tokens, &WEAPON_STATS, &[0, 7, 0]);
    assert_eq!(tokens, vec!["medium wep.", "medium wep. 7"]);
}

#[test]
fn notes_are_marked_as_alternatives() {
    let mut notes = Vec::new();
    push_requirement_note(&mut notes, false, "Strength: 5".to_owned());
    push_requirement_note(&mut notes, true, "Lord".to_owned());
    assert_eq!(notes, vec!["Strength: 5", "OR Lord"]);
}

#[test]
fn title_case_capitalizes_first_character() {
    assert_eq!(title_case("weapon"), "Weapon");
    assert_eq!(title_case("quests"), "Quests");
    assert_eq!(title_case(""), "");
    assert_eq!(title_case("ßeta"), "SSeta");
}

#[test]
fn dedup_strings_keeps_first_occurrences() {
    let items: Vec<String> = ["b", "a", "b", "c", "a"].iter().map(|s| s.to_string()).collect();
    assert_eq!(dedup_strings(items), vec!["b", "a", "c"]);
    assert!(dedup_strings(Vec::new()).is_empty());
}

#[test]
fn clone_texts_copies_every_string() {
    let items = vec!["x".to_owned(), "y".to_owned()];
    assert_eq!(clone_texts(&items), items);
}

#[test]
fn chips_raise_named_stats() {
    let mut s = StatBlock::default();
    assign_chip_requirement(&mut s, "Willpower", 20);
    assign_chip_requirement(&mut s, "Willpower", 10);
    assign_chip_requirement(&mut s, "Heavy Wep.", 5);
    assign_chip_requirement(&mut s, "Light Weapon", 6);
    assign_chip_requirement(&mut s, "Bloodrender", 3);
    assign_chip_requirement(&mut s, "Mind", 50);
    assign_chip_requirement(&mut s, "Unknown", 50);
    assert_eq!(s.base, [0, 0, 0, 0, 20, 0]);
    assert_eq!(s.weapon, [5, 0, 6]);
    assert_eq!(s.attunement, [0, 0, 0, 0, 0, 0, 3]);
}

#[test]
fn listing_order_is_by_name_then_key() {
    let a = talent("b", "Alpha", "", &[], None);
    let b = talent("a", "Beta", "", &[], None);
    let c = talent("c", "Alpha", "", &[], None);
    assert!(talent_listed_before(&a, &b));
    assert!(!talent_listed_before(&b, &a));
    assert!(talent_listed_before(&a, &c));
    assert!(!talent_listed_before(&a, &a));
}

#[test]
fn dedup_and_sort_keeps_last_per_key_sorted_by_name() {
    let talents = vec![
        talent("z::1", "Zeal", "Common", &[], None),
        talent("a::2", "Aegis", "Rare", &[], None),
        talent("z::1", "Zeal", "Legendary", &[], None),
        talent("b::3", "Aegis", "Common", &[], None),
    ];
    let sorted = dedup_and_sort_talents(talents);
    let keys: Vec<&str> = sorted.iter().map(|t| t.key.as_str()).collect();
    assert_eq!(keys, vec!["a::2", "b::3", "z::1"]);
    assert_eq!(sorted[2].rarity, "Legendary");
}

#[test]
fn dedup_and_sort_of_nothing_is_nothing() {
    assert!(dedup_and_sort_talents(Vec::new()).is_empty());
}

#[test]
fn base_stat_names() {
    assert_eq!(BASE_STATS[3], "Intelligence");
}
