use deepwoken_planner::nuxt::JsonValue;
use deepwoken_planner::optimizer::{BuildOptimizer, OwnedTalentPrereq};
use deepwoken_planner::planner::DeepwokenApp;
use deepwoken_planner::shrine::shrine_of_order;
use deepwoken_planner::stats::{
    apply_derived_post_requirements, apply_post_requirements, clamp_to_minimums,
    points_needed_for_post, zero_to_positive_variants, StatBlock,
};
use deepwoken_planner::talent::{dedup_and_sort_talents, dedup_strings, Talent, TalentCategory};
use deepwoken_planner::variants::{expand_requirement_variants, RequirementVariant};

fn sb(base: [u8; 6], weapon: [u8; 3], attunement: [u8; 7]) -> StatBlock {
    StatBlock { base, weapon, attunement }
}

fn total(s: &StatBlock) -> i32 {
    s.base.iter().chain(s.weapon.iter()).chain(s.attunement.iter()).map(|v| *v as i32).sum()
}

#[test]
fn merging_is_order_free_and_absorbing() {
    let a = sb([10, 0, 5, 0, 0, 0], [3, 0, 0], [0, 2, 0, 0, 0, 0, 0]);
    let b = sb([0, 7, 9, 0, 0, 0], [1, 4, 0], [0, 0, 0, 0, 0, 0, 6]);
    let mut ab = a;
    ab.max_with(&b);
    let mut ba = b;
    ba.max_with(&a);
    assert_eq!(ab, ba);
    let mut again = ab;
    again.max_with(&b);
    assert_eq!(again, ab);
    let mut clamped = a;
    clamp_to_minimums(&mut clamped, &b);
    assert_eq!(clamped, ab);
}

#[test]
fn derived_post_requirements_settle_after_one_pass() {
    let pre = sb([60, 10, 0, 0, 0, 0], [0, 0, 40], [0, 0, 3, 0, 0, 0, 0]);
    let mut once = sb([20, 0, 0, 0, 0, 0], [0; 3], [0; 7]);
    apply_derived_post_requirements(&mut once, &pre);
    let mut twice = once;
    apply_derived_post_requirements(&mut twice, &pre);
    assert_eq!(once, twice);
    assert_eq!(once, sb([35, 0, 0, 0, 0, 0], [0, 0, 15], [0, 0, 1, 0, 0, 0, 0]));
}

#[test]
fn points_needed_are_the_points_added() {
    let shrine = sb([20, 20, 0, 0, 0, 0], [0, 1, 0], [1, 0, 0, 0, 0, 0, 0]);
    let post = sb([25, 10, 5, 0, 0, 0], [0, 0, 0], [3, 0, 0, 0, 0, 0, 2]);
    let final_stats = apply_post_requirements(&shrine, &post);
    assert_eq!(points_needed_for_post(&shrine, &post), total(&final_stats) - total(&shrine));
}

#[test]
fn shrine_keeps_unused_stats_unused() {
    let pre = sb([30, 0, 12, 0, 0, 0], [0, 44, 0], [0, 0, 9, 0, 0, 0, 0]);
    let (shrine, _) = shrine_of_order(&pre).unwrap();
    for (before, after) in pre.base.iter().zip(shrine.base.iter()) {
        if *before == 0 {
            assert_eq!(*after, 0);
        }
    }
    assert_eq!(shrine.weapon[0], 0);
    assert_eq!(shrine.attunement[0], 0);
    assert_eq!(shrine.attunement[6], 0);
}

#[test]
fn optimized_builds_never_overspend() {
    let mut optimizer = BuildOptimizer::new();
    let result = optimizer
        .optimize_build(vec![
            OwnedTalentPrereq { name: "a".to_owned(), stats: sb([90, 0, 0, 0, 0, 0], [0; 3], [0; 7]), category: TalentCategory::Pre },
            OwnedTalentPrereq { name: "b".to_owned(), stats: sb([0, 0, 0, 0, 80, 0], [0; 3], [0; 7]), category: TalentCategory::Post },
        ])
        .unwrap();
    assert!(result.points_spare >= 0);
}

#[test]
fn first_pre_variant_is_the_pre_stats() {
    let pre = sb([0, 5, 0, 0, 0, 0], [0; 3], [0; 7]);
    let post = sb([8, 0, 0, 0, 0, 0], [0, 3, 0], [0, 0, 0, 0, 0, 0, 2]);
    let variants = zero_to_positive_variants(&pre, &post);
    assert_eq!(variants.len(), 27);
    assert_eq!(variants[0], pre);
}

#[test]
fn dedup_leaves_no_repeats_and_settles() {
    let items: Vec<String> = ["x", "y", "x", "z", "y", "x"].iter().map(|s| s.to_string()).collect();
    let once = dedup_strings(items.clone());
    for (i, a) in once.iter().enumerate() {
        for b in &once[i + 1..] {
            assert_ne!(a, b);
        }
    }
    for item in &items {
        assert!(once.contains(item));
    }
    assert_eq!(dedup_strings(once.clone()), once);
}

#[test]
fn empty_search_lists_every_talent() {
    let talent = Talent {
        key: "k".to_owned(),
        name: "n".to_owned(),
        rarity: "r".to_owned(),
        stats: StatBlock::default(),
        requirement_notes: Vec::new(),
        variant_label: None,
    };
    let app = DeepwokenApp::new(Ok((vec![talent.clone(), talent.clone(), talent], String::new())));
    assert_eq!(app.filtered_talents(), vec![0, 1, 2]);
}

#[test]
fn variants_never_ask_less_than_their_base() {
    let root = vec![JsonValue::Null];
    let mut base = RequirementVariant::default();
    base.stats.base = [40, 0, 0, 30, 0, 0];
    let requirements = vec![
        (
            "stats".to_owned(),
            JsonValue::Object(vec![
                ("Mind".to_owned(), JsonValue::UInt(20)),
                ("Strength".to_owned(), JsonValue::UInt(10)),
            ]),
        ),
        ("or".to_owned(), JsonValue::Array(vec![JsonValue::Text("Oath".to_owned())])),
    ];
    let variants = expand_requirement_variants(&root, &requirements, base.clone(), false);
    assert_eq!(variants.len(), 3);
    for v in &variants {
        for (got, floor) in v.stats.base.iter().zip(base.stats.base.iter()) {
            assert!(got >= floor);
        }
    }
    assert_eq!(variants[0].stats.base, [40, 0, 0, 30, 0, 0]);
    assert_eq!(variants[1].stats.base, [40, 0, 0, 30, 20, 0]);
}

#[test]
fn targets_start_at_minimums() {
    let talent = Talent {
        key: "k".to_owned(),
        name: "n".to_owned(),
        rarity: "r".to_owned(),
        stats: sb([30, 0, 0, 0, 0, 0], [0, 0, 26], [0, 1, 0, 0, 0, 0, 0]),
        requirement_notes: Vec::new(),
        variant_label: None,
    };
    let mut app = DeepwokenApp::new(Ok((vec![talent], String::new())));
    app.selected_index = Some(0);
    app.add_selected_talent(TalentCategory::Pre);
    assert_eq!(app.pre_stats, app.min_pre);
    assert_eq!(app.post_stats, app.min_post);
    assert_eq!(app.min_post, sb([5, 0, 0, 0, 0, 0], [0, 0, 1], [0, 1, 0, 0, 0, 0, 0]));
}

#[test]
fn add_then_remove_restores_the_chosen_list() {
    let talent = Talent {
        key: "k".to_owned(),
        name: "n".to_owned(),
        rarity: "r".to_owned(),
        stats: sb([30, 0, 0, 0, 0, 0], [0; 3], [0; 7]),
        requirement_notes: Vec::new(),
        variant_label: None,
    };
    let mut app = DeepwokenApp::new(Ok((vec![talent], String::new())));
    app.selected_index = Some(0);
    app.add_selected_talent(TalentCategory::Post);
    let before: Vec<String> = app.selected_talents.iter().map(|s| s.talent.key.clone()).collect();
    app.add_selected_talent(TalentCategory::Pre);
    app.remove_selected_talent();
    let after: Vec<String> = app.selected_talents.iter().map(|s| s.talent.key.clone()).collect();
    assert_eq!(before, after);
    assert_eq!(app.selected_talents[0].category, TalentCategory::Post);
}

#[test]
fn optimizer_answers_the_best_placement() {
    let placed = |category: TalentCategory| {
        let mut optimizer = BuildOptimizer::new();
        optimizer
            .optimize_build(vec![
                OwnedTalentPrereq { name: "x".to_owned(), stats: sb([60, 0, 0, 0, 0, 0], [0; 3], [0; 7]), category },
                OwnedTalentPrereq { name: "y".to_owned(), stats: sb([0, 30, 0, 0, 0, 0], [0; 3], [0; 7]), category: TalentCategory::Pre },
            ])
            .unwrap()
            .points_spare
    };
    let as_pre = placed(TalentCategory::Pre);
    let as_post = placed(TalentCategory::Post);
    let as_any = placed(TalentCategory::Any);
    assert!(as_any >= as_pre);
    assert!(as_any >= as_post);
    assert_eq!(as_any, as_pre.max(as_post));
}

#[test]
fn requirements_without_alternatives_give_a_variant() {
    let root = vec![JsonValue::Null];
    let requirements = vec![("weapon".to_owned(), JsonValue::Text("Spear".to_owned()))];
    let variants = expand_requirement_variants(&root, &requirements, RequirementVariant::default(), false);
    assert_eq!(variants.len(), 1);
    let or_text = vec![("or".to_owned(), JsonValue::Text("not a list".to_owned()))];
    assert_eq!(expand_requirement_variants(&root, &or_text, RequirementVariant::default(), false).len(), 1);
    let none: Vec<(String, JsonValue)> = Vec::new();
    assert_eq!(expand_requirement_variants(&root, &none, RequirementVariant::default(), true).len(), 1);
}

#[test]
fn payload_stops_at_first_closing_tag() {
    let html = format!("{}{{\"a\":1}}</script><script>x</script>", deepwoken_planner::nuxt::NUXT_START_MARKER);
    let payload = deepwoken_planner::nuxt::extract_nuxt_payload(&html).unwrap();
    assert_eq!(payload, "{\"a\":1}");
    assert!(!payload.contains("</script>"));
}

#[test]
fn listing_twice_changes_nothing() {
    let make = |key: &str, name: &str, rarity: &str| Talent {
        key: key.to_owned(),
        name: name.to_owned(),
        rarity: rarity.to_owned(),
        stats: StatBlock::default(),
        requirement_notes: Vec::new(),
        variant_label: None,
    };
    let once = dedup_and_sort_talents(vec![
        make("c", "Gamma", "1"),
        make("a", "Beta", "2"),
        make("c", "Gamma", "3"),
        make("b", "Alpha", "4"),
    ]);
    let summary = |ts: &Vec<Talent>| -> Vec<(String, String, String)> {
        ts.iter().map(|t| (t.key.clone(), t.name.clone(), t.rarity.clone())).collect()
    };
    let twice = dedup_and_sort_talents(once.clone());
    assert_eq!(summary(&twice), summary(&once));
    assert_eq!(
        summary(&once),
        vec![
            ("b".to_owned(), "Alpha".to_owned(), "4".to_owned()),
            ("a".to_owned(), "Beta".to_owned(), "2".to_owned()),
            ("c".to_owned(), "Gamma".to_owned(), "3".to_owned()),
        ]
    );
}

#[test]
fn answer_ignores_names_order_and_earlier_state() {
    let req = |name: &str, base: [u8; 6], category: TalentCategory| OwnedTalentPrereq {
        name: name.to_owned(),
        stats: sb(base, [0; 3], [0; 7]),
        category,
    };
    let mut first = BuildOptimizer::new();
    let a = first
        .optimize_build(vec![
            req("a", [50, 0, 0, 0, 0, 0], TalentCategory::Pre),
            req("b", [0, 0, 30, 0, 0, 0], TalentCategory::Post),
            req("c", [0, 20, 0, 0, 0, 0], TalentCategory::Any),
            req("d", [0, 0, 0, 10, 0, 0], TalentCategory::Pre),
        ])
        .unwrap();
    let mut used = BuildOptimizer::new();
    let _ = used.optimize_build(vec![req("z", [255, 255, 0, 0, 0, 0], TalentCategory::Post)]);
    let b = used
        .optimize_build(vec![
            req("other", [0, 0, 0, 10, 0, 0], TalentCategory::Pre),
            req("names", [0, 20, 0, 0, 0, 0], TalentCategory::Any),
            req("here", [50, 0, 0, 0, 0, 0], TalentCategory::Pre),
            req("again", [50, 0, 0, 0, 0, 0], TalentCategory::Pre),
            req("too", [0, 0, 30, 0, 0, 0], TalentCategory::Post),
        ])
        .unwrap();
    assert_eq!(a.points_spare, b.points_spare);
    assert_eq!(a.output, b.output);
}

#[test]
fn answer_points_ignore_the_order_of_any_talents() {
    let req = |base: [u8; 6], category: TalentCategory| OwnedTalentPrereq {
        name: "t".to_owned(),
        stats: sb(base, [0; 3], [0; 7]),
        category,
    };
    let list = vec![
        req([60, 0, 0, 0, 0, 0], TalentCategory::Any),
        req([0, 0, 0, 0, 45, 0], TalentCategory::Any),
        req([0, 20, 0, 0, 0, 0], TalentCategory::Pre),
        req([0, 0, 35, 0, 0, 0], TalentCategory::Any),
    ];
    let reversed: Vec<OwnedTalentPrereq> = list.iter().rev().cloned().collect();
    let a = BuildOptimizer::new().optimize_build(list).unwrap();
    let b = BuildOptimizer::new().optimize_build(reversed).unwrap();
    assert_eq!(a.points_spare, b.points_spare);
}
