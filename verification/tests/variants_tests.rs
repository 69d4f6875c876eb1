use deepwoken_planner::nuxt::JsonValue;
use deepwoken_planner::variants::{expand_requirement_variants, RequirementVariant};
use deepwoken_planner::variants::nesting_within;

fn member(key: &str, value: JsonValue) -> (String, JsonValue) {
    (key.to_owned(), value)
}

fn txt(s: &str) -> JsonValue {
    JsonValue::Text(s.to_owned())
}

fn obj(members: Vec<(String, JsonValue)>) -> JsonValue {
    JsonValue::Object(members)
}

fn expand(root: &[JsonValue], requirements: Vec<(String, JsonValue)>) -> Vec<RequirementVariant> {
    expand_requirement_variants(root, &requirements, RequirementVariant::default(), false)
}

#[test]
fn default_variant_asks_nothing() {
    let v = RequirementVariant::default();
    assert!(v.stats.is_all_zero());
    assert!(v.requirement_notes.is_empty());
    assert!(v.variant_labels.is_empty());
}

#[test]
fn plain_stat_chips_raise_one_variant() {
    let root = vec![JsonValue::Null];
    let variants = expand(
        &root,
        vec![member("stats", obj(vec![member("Agility", JsonValue::UInt(20)), member("Flamecharm", JsonValue::UInt(5))]))],
    );
    assert_eq!(variants.len(), 1);
    assert_eq!(variants[0].stats.base, [0, 0, 20, 0, 0, 0]);
    assert_eq!(variants[0].stats.attunement, [5, 0, 0, 0, 0, 0, 0]);
    assert_eq!(variants[0].requirement_notes, vec!["Agility: 20", "Flamecharm: 5"]);
    assert!(variants[0].variant_labels.is_empty());
}

#[test]
fn weapon_chip_fans_out_three_ways() {
    let root = vec![JsonValue::Null];
    let variants = expand(&root, vec![member("stats", obj(vec![member("Weapon", JsonValue::UInt(30))]))]);
    assert_eq!(variants.len(), 3);
    assert_eq!(variants[0].stats.weapon, [30, 0, 0]);
    assert_eq!(variants[1].stats.weapon, [0, 30, 0]);
    assert_eq!(variants[2].stats.weapon, [0, 0, 30]);
    assert_eq!(variants[1].requirement_notes, vec!["Medium Weapon: 30"]);
    assert_eq!(variants[2].variant_labels, vec!["Light Weapon"]);
}

#[test]
fn grouped_chips_multiply() {
    let root = vec![JsonValue::Null];
    let variants = expand(
        &root,
        vec![member("stats", obj(vec![member("Body", JsonValue::UInt(10)), member("Mind", JsonValue::UInt(12))]))],
    );
    assert_eq!(variants.len(), 9);
    assert_eq!(variants[0].stats.base, [10, 0, 0, 12, 0, 0]);
    assert_eq!(variants[5].stats.base, [0, 10, 0, 0, 0, 12]);
    assert_eq!(variants[5].variant_labels, vec!["Fortitude", "Charisma"]);
    assert_eq!(variants[8].requirement_notes, vec!["Agility: 10", "Charisma: 12"]);
}

#[test]
fn attunement_chip_fans_out_seven_ways() {
    let root = vec![JsonValue::Null];
    let variants = expand(&root, vec![member("stats", obj(vec![member("Attunement", JsonValue::UInt(1))]))]);
    assert_eq!(variants.len(), 7);
    assert_eq!(variants[6].stats.attunement, [0, 0, 0, 0, 0, 0, 1]);
    assert_eq!(variants[6].variant_labels, vec!["Bloodrend"]);
}

#[test]
fn text_and_list_requirements_add_notes() {
    let root = vec![JsonValue::Null, txt("Flame Grab")];
    let variants = expand(
        &root,
        vec![
            member("quests", JsonValue::Array(vec![txt("A"), JsonValue::Null, txt("B")])),
            member("weapon", txt("Greatsword")),
            member("talents", JsonValue::Array(vec![JsonValue::UInt(1)])),
            member("mantras", JsonValue::Array(vec![JsonValue::Null])),
            member("origin", JsonValue::UInt(1)),
        ],
    );
    assert_eq!(variants.len(), 1);
    assert_eq!(
        variants[0].requirement_notes,
        vec!["Weapon: Greatsword", "Origin: Flame Grab", "Talents: Flame Grab", "Quests: A, B"]
    );
}

#[test]
fn alternatives_give_one_variant_each() {
    let root = vec![JsonValue::Null];
    let variants = expand(
        &root,
        vec![
            member("stats", obj(vec![member("Strength", JsonValue::UInt(5))])),
            member(
                "or",
                JsonValue::Array(vec![
                    txt("Lord"),
                    obj(vec![member("stats", obj(vec![member("Charisma", JsonValue::UInt(10))]))]),
                    JsonValue::Null,
                ]),
            ),
        ],
    );
    assert_eq!(variants.len(), 2);
    assert_eq!(variants[0].requirement_notes, vec!["Strength: 5", "OR Lord"]);
    assert_eq!(variants[0].variant_labels, vec!["Lord"]);
    assert_eq!(variants[0].stats.base, [5, 0, 0, 0, 0, 0]);
    assert_eq!(variants[1].requirement_notes, vec!["Strength: 5", "OR Charisma: 10"]);
    assert!(variants[1].variant_labels.is_empty());
    assert_eq!(variants[1].stats.base, [5, 0, 0, 0, 0, 10]);
}

#[test]
fn alternatives_that_give_nothing_leave_no_variant() {
    let root = vec![JsonValue::Null];
    let variants = expand(
        &root,
        vec![
            member("equipment", txt("Ring")),
            member("or", JsonValue::Array(vec![JsonValue::Null, JsonValue::Bool(true)])),
        ],
    );
    assert!(variants.is_empty());
    let empty = expand(&root, vec![member("or", JsonValue::Array(vec![]))]);
    assert!(empty.is_empty());
}

#[test]
fn nested_alternatives_that_give_nothing_drop_their_branch() {
    let root = vec![JsonValue::Null];
    let variants = expand(
        &root,
        vec![member(
            "or",
            JsonValue::Array(vec![obj(vec![member("or", JsonValue::Array(vec![]))]), txt("Vow")]),
        )],
    );
    assert_eq!(variants.len(), 1);
    assert_eq!(variants[0].variant_labels, vec!["Vow"]);
}

#[test]
fn alternatives_by_reference() {
    let root = vec![
        JsonValue::Null,
        obj(vec![member("stats", JsonValue::UInt(2))]),
        obj(vec![member("Willpower", JsonValue::UInt(15))]),
    ];
    let variants = expand(&root, vec![member("or", JsonValue::Array(vec![JsonValue::UInt(1)]))]);
    assert_eq!(variants.len(), 1);
    assert_eq!(variants[0].stats.base, [0, 0, 0, 0, 15, 0]);
    assert_eq!(variants[0].requirement_notes, vec!["OR Willpower: 15"]);
}

#[test]
fn variants_keep_their_base() {
    let root = vec![JsonValue::Null];
    let mut base = RequirementVariant::default();
    base.stats.base[0] = 50;
    base.requirement_notes.push("earlier".to_owned());
    let requirements = vec![member("stats", obj(vec![member("Strength", JsonValue::UInt(20))]))];
    let variants = expand_requirement_variants(&root, &requirements, base, true);
    assert_eq!(variants.len(), 1);
    assert_eq!(variants[0].stats.base[0], 50);
    assert_eq!(variants[0].requirement_notes, vec!["earlier", "OR Strength: 20"]);
}

#[test]
fn cloned_variant_is_equal() {
    let mut v = RequirementVariant::default();
    v.stats.weapon[1] = 3;
    v.variant_labels.push("x".to_owned());
    let c = v.clone();
    assert_eq!(c.stats, v.stats);
    assert_eq!(c.variant_labels, v.variant_labels);
    assert_eq!(c.requirement_notes, v.requirement_notes);
}

#[test]
fn nesting_depth_of_alternatives() {
    let root = vec![JsonValue::Null];
    let flat = vec![member("or", JsonValue::Array(vec![txt("A")]))];
    assert!(nesting_within(&root, &flat, 0));
    let nested = vec![member(
        "or",
        JsonValue::Array(vec![obj(vec![member("or", JsonValue::Array(vec![obj(vec![])]))])]),
    )];
    assert!(!nesting_within(&root, &nested, 1));
    assert!(nesting_within(&root, &nested, 2));
}

#[test]
fn self_referring_alternatives_never_end() {
    let root = vec![JsonValue::Null, obj(vec![member("or", JsonValue::Array(vec![JsonValue::UInt(1)]))])];
    let requirements = vec![member("or", JsonValue::Array(vec![JsonValue::UInt(1)]))];
    assert!(!nesting_within(&root, &requirements, 50));
}
