use deepwoken_planner::nuxt::JsonValue;
use deepwoken_planner::wiki::{talents_from_nuxt_root, MISSING_LIST_REF, MISSING_STATE, UNRESOLVED_LIST};
use deepwoken_planner::wiki::{parse_talents_from_wiki_html, payload_nesting_within, SELF_REFERRING};
use deepwoken_planner::nuxt::NUXT_START_MARKER;

fn entry(key: &str, value: JsonValue) -> (String, JsonValue) {
    (key.to_owned(), value)
}

fn t(s: &str) -> JsonValue {
    JsonValue::Text(s.to_owned())
}

fn state(list_ref: JsonValue) -> JsonValue {
    JsonValue::Object(vec![entry("wiki-list-talent", list_ref)])
}

#[test]
fn root_without_state_object() {
    let short = vec![JsonValue::Null, JsonValue::Null, JsonValue::Null];
    assert_eq!(talents_from_nuxt_root(&short).unwrap_err(), MISSING_STATE);
    let not_object = vec![JsonValue::Null, JsonValue::Null, JsonValue::Null, JsonValue::UInt(4)];
    assert_eq!(talents_from_nuxt_root(&not_object).unwrap_err(), "Nuxt payload missing talent state object.");
}

#[test]
fn state_without_list_reference() {
    let root = vec![JsonValue::Null, JsonValue::Null, JsonValue::Null, JsonValue::Object(vec![])];
    assert_eq!(talents_from_nuxt_root(&root).unwrap_err(), MISSING_LIST_REF);
    let root = vec![JsonValue::Null, JsonValue::Null, JsonValue::Null, state(t("4"))];
    assert_eq!(talents_from_nuxt_root(&root).unwrap_err(), "Nuxt payload missing wiki-list-talent reference.");
}

#[test]
fn list_reference_that_leads_nowhere() {
    let root = vec![JsonValue::Null, JsonValue::Null, JsonValue::Null, state(JsonValue::UInt(9))];
    assert_eq!(talents_from_nuxt_root(&root).unwrap_err(), UNRESOLVED_LIST);
    let root = vec![JsonValue::Null, JsonValue::Null, JsonValue::Null, state(JsonValue::UInt(0))];
    assert_eq!(
        talents_from_nuxt_root(&root).unwrap_err(),
        "Nuxt talent list reference did not resolve to an array."
    );
}

#[test]
fn empty_talent_list() {
    let root = vec![JsonValue::Null, JsonValue::Null, JsonValue::Null, state(JsonValue::UInt(4)), JsonValue::Array(vec![])];
    assert!(talents_from_nuxt_root(&root).unwrap().is_empty());
}

#[test]
fn talents_from_a_payload() {
    let root = vec![
        JsonValue::Null,
        JsonValue::Null,
        JsonValue::Null,
        state(JsonValue::UInt(4)),
        JsonValue::Array(vec![
            JsonValue::UInt(5),
            JsonValue::UInt(6),
            JsonValue::UInt(8),
            JsonValue::UInt(9),
            t("not a reference"),
            JsonValue::UInt(0),
        ]),
        JsonValue::Object(vec![entry("name", t("Zeal")), entry("rarity", t("Rare"))]),
        JsonValue::Object(vec![
            entry("name", JsonValue::UInt(7)),
            entry(
                "requirements",
                JsonValue::Object(vec![entry(
                    "stats",
                    JsonValue::Object(vec![entry("Mind", JsonValue::UInt(30))]),
                )]),
            ),
        ]),
        t("Aptitude"),
        JsonValue::Object(vec![entry("name", t("Hidden")), entry("VOI", JsonValue::Bool(true))]),
        JsonValue::Object(vec![entry("rarity", t("Rare"))]),
    ];
    let talents = talents_from_nuxt_root(&root).unwrap();
    let keys: Vec<&str> = talents.iter().map(|x| x.key.as_str()).collect();
    assert_eq!(
        keys,
        vec!["aptitude::6::charisma", "aptitude::6::intelligence", "aptitude::6::willpower", "zeal::5"]
    );
    assert_eq!(talents[0].name, "Aptitude");
    assert_eq!(talents[0].rarity, "Common");
    assert_eq!(talents[0].variant_label.as_deref(), Some("Charisma"));
    assert_eq!(talents[0].requirement_notes, vec!["Charisma: 30"]);
    assert_eq!(talents[0].stats.base, [0, 0, 0, 0, 0, 30]);
    assert_eq!(talents[1].stats.base, [0, 0, 0, 30, 0, 0]);
    assert_eq!(talents[3].name, "Zeal");
    assert_eq!(talents[3].rarity, "Rare");
    assert!(talents[3].variant_label.is_none());
    assert!(talents[3].requirement_notes.is_empty());
    assert!(talents[3].stats.is_all_zero());
}

#[test]
fn later_entries_with_the_same_key_win() {
    let root = vec![
        JsonValue::Null,
        JsonValue::Null,
        JsonValue::Null,
        state(JsonValue::UInt(4)),
        JsonValue::Array(vec![JsonValue::UInt(5), JsonValue::UInt(5)]),
        JsonValue::Object(vec![
            entry("name", t("Twice")),
            entry(
                "requirements",
                JsonValue::Object(vec![entry("or", JsonValue::Array(vec![t("A / B"), t("a / b")]))]),
            ),
        ]),
    ];
    let talents = talents_from_nuxt_root(&root).unwrap();
    assert_eq!(talents.len(), 1);
    assert_eq!(talents[0].key, "twice::5::a / b");
    assert_eq!(talents[0].variant_label.as_deref(), Some("a / b"));
    assert_eq!(talents[0].requirement_notes, vec!["OR a / b"]);
}

#[test]
fn variant_labels_are_joined() {
    let root = vec![
        JsonValue::Null,
        JsonValue::Null,
        JsonValue::Null,
        state(JsonValue::UInt(4)),
        JsonValue::Array(vec![JsonValue::UInt(5)]),
        JsonValue::Object(vec![
            entry("name", t("Dual")),
            entry(
                "requirements",
                JsonValue::Object(vec![
                    entry("stats", JsonValue::Object(vec![entry("Weapon", JsonValue::UInt(10))])),
                    entry("or", JsonValue::Array(vec![t("Vow")])),
                ]),
            ),
        ]),
    ];
    let talents = talents_from_nuxt_root(&root).unwrap();
    assert_eq!(talents.len(), 3);
    assert_eq!(talents[0].key, "dual::5::heavy weapon / vow");
    assert_eq!(talents[0].variant_label.as_deref(), Some("Heavy Weapon / Vow"));
    assert_eq!(talents[0].requirement_notes, vec!["Heavy Weapon: 10", "OR Vow"]);
    assert_eq!(talents[2].key, "dual::5::medium weapon / vow");
}

fn looping_root(fifth: JsonValue) -> Vec<JsonValue> {
    vec![
        JsonValue::Null,
        JsonValue::Null,
        JsonValue::Null,
        state(JsonValue::UInt(4)),
        JsonValue::Array(vec![JsonValue::UInt(5)]),
        fifth,
        JsonValue::Object(vec![entry("or", JsonValue::Array(vec![JsonValue::UInt(6)]))]),
    ]
}

#[test]
fn payload_nesting_checks_listed_entries_only() {
    let fine = looping_root(JsonValue::Object(vec![entry("name", t("Fine"))]));
    assert!(payload_nesting_within(&fine, 3));
    let listed = looping_root(JsonValue::Object(vec![
        entry("name", t("Loop")),
        entry("requirements", JsonValue::UInt(6)),
    ]));
    assert!(!payload_nesting_within(&listed, 40));
    let hidden = looping_root(JsonValue::Object(vec![
        entry("name", t("Loop")),
        entry("VOI", JsonValue::Bool(true)),
        entry("requirements", JsonValue::UInt(6)),
    ]));
    assert!(payload_nesting_within(&hidden, 0));
    assert!(payload_nesting_within(&[JsonValue::Null], 0));
}

fn page(json: &str) -> String {
    format!("<html><body>{NUXT_START_MARKER}{json}</script><script>other</script></body></html>")
}

#[test]
fn wiki_page_gives_its_talents() {
    let html = page(
        r#"[null,null,null,{"wiki-list-talent":4},[5,6,7],{"name":"Zeal","rarity":"Rare"},{"name":"Brawn","requirements":{"stats":{"Strength":12,"Agility":2.5}}},{"name":"Gone","requirements":{"or":[]}}]"#,
    );
    let talents = parse_talents_from_wiki_html(&html).unwrap();
    let keys: Vec<&str> = talents.iter().map(|x| x.key.as_str()).collect();
    assert_eq!(keys, vec!["brawn::6", "zeal::5"]);
    assert_eq!(talents[0].stats.base, [12, 0, 0, 0, 0, 0]);
    assert_eq!(talents[0].requirement_notes, vec!["Strength: 12"]);
    assert_eq!(talents[0].rarity, "Common");
    assert_eq!(talents[1].rarity, "Rare");
}

#[test]
fn wiki_page_errors() {
    assert_eq!(
        parse_talents_from_wiki_html("<html></html>").unwrap_err(),
        "Could not find __NUXT_DATA__ script."
    );
    assert!(parse_talents_from_wiki_html(&page("[1,")).is_err());
    assert!(parse_talents_from_wiki_html(&page("{\"a\":1}")).is_err());
    assert_eq!(parse_talents_from_wiki_html(&page("[1,2]")).unwrap_err(), MISSING_STATE);
    assert_eq!(
        parse_talents_from_wiki_html(&page(r#"[0,0,0,{"wiki-list-talent":"x"}]"#)).unwrap_err(),
        MISSING_LIST_REF
    );
}

#[test]
fn wiki_page_with_self_referring_alternatives_is_refused() {
    let html = page(
        r#"[null,null,null,{"wiki-list-talent":4},[5],{"name":"Loop","requirements":6},{"or":[6]}]"#,
    );
    assert_eq!(parse_talents_from_wiki_html(&html).unwrap_err(), SELF_REFERRING);
}
