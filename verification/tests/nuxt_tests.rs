use deepwoken_planner::nuxt::{
    extract_nuxt_payload, nuxt_array, nuxt_bool, nuxt_deref, nuxt_object, nuxt_ref_index,
    nuxt_string, nuxt_u8, object_get, JsonValue, NUXT_START_MARKER, SCRIPT_END_MARKER,
};

fn text(s: &str) -> JsonValue {
    JsonValue::Text(s.to_owned())
}

#[test]
fn payload_between_markers() {
    let html = format!("<html>{NUXT_START_MARKER}[1,2]{SCRIPT_END_MARKER}<p>{SCRIPT_END_MARKER}");
    assert_eq!(extract_nuxt_payload(&html), Ok("[1,2]"));
}

#[test]
fn payload_may_be_empty() {
    let html = format!("{NUXT_START_MARKER}</script>");
    assert_eq!(extract_nuxt_payload(&html), Ok(""));
}

#[test]
fn payload_without_start_marker() {
    assert_eq!(
        extract_nuxt_payload("<script>[1]</script>"),
        Err("Could not find __NUXT_DATA__ script.".to_owned())
    );
}

#[test]
fn payload_without_end_marker() {
    let html = format!("</script>{NUXT_START_MARKER}[1]");
    assert_eq!(
        extract_nuxt_payload(&html),
        Err("Could not find end of __NUXT_DATA__ script.".to_owned())
    );
}

#[test]
fn object_get_finds_first_member() {
    let entries = vec![
        ("a".to_owned(), JsonValue::UInt(1)),
        ("b".to_owned(), JsonValue::UInt(2)),
        ("a".to_owned(), JsonValue::UInt(3)),
    ];
    assert!(matches!(object_get(&entries, "a"), Some(JsonValue::UInt(1))));
    assert!(matches!(object_get(&entries, "b"), Some(JsonValue::UInt(2))));
    assert!(object_get(&entries, "c").is_none());
}

#[test]
fn references_resolve_into_the_root() {
    let root = vec![JsonValue::Null, text("hello"), JsonValue::Bool(true), JsonValue::Array(vec![JsonValue::Null])];
    assert_eq!(nuxt_ref_index(&JsonValue::UInt(7)), Some(7));
    assert_eq!(nuxt_ref_index(&text("7")), None);
    assert_eq!(nuxt_ref_index(&JsonValue::OtherNumber), None);
    assert!(matches!(nuxt_deref(&root, &JsonValue::UInt(1)), Some(JsonValue::Text(_))));
    assert!(nuxt_deref(&root, &JsonValue::UInt(9)).is_none());
    assert_eq!(nuxt_string(&root, &JsonValue::UInt(1)), Some("hello".to_owned()));
    assert_eq!(nuxt_string(&root, &text("inline")), Some("inline".to_owned()));
    assert_eq!(nuxt_string(&root, &JsonValue::UInt(2)), None);
    assert_eq!(nuxt_bool(&root, &JsonValue::UInt(2)), Some(true));
    assert_eq!(nuxt_bool(&root, &JsonValue::Bool(false)), Some(false));
    assert_eq!(nuxt_bool(&root, &JsonValue::UInt(1)), None);
    assert_eq!(nuxt_array(&root, &JsonValue::UInt(3)).map(|a| a.len()), Some(1));
    assert!(nuxt_array(&root, &JsonValue::UInt(0)).is_none());
    let inline = JsonValue::Object(vec![("k".to_owned(), JsonValue::Null)]);
    assert_eq!(nuxt_object(&root, &inline).map(|o| o.len()), Some(1));
    assert!(nuxt_object(&root, &JsonValue::UInt(1)).is_none());
}

#[test]
fn stat_values_prefer_the_referenced_number() {
    let root = vec![JsonValue::Null, JsonValue::Null, JsonValue::UInt(7), text("x"), JsonValue::UInt(999)];
    assert_eq!(nuxt_u8(&root, &JsonValue::UInt(2)), Some(7));
    assert_eq!(nuxt_u8(&root, &JsonValue::UInt(3)), Some(3));
    assert_eq!(nuxt_u8(&root, &JsonValue::UInt(4)), Some(4));
    assert_eq!(nuxt_u8(&root, &JsonValue::UInt(40)), Some(40));
    assert_eq!(nuxt_u8(&root, &JsonValue::UInt(300)), None);
    assert_eq!(nuxt_u8(&root, &text("5")), None);
}
