use psysonic_library::json::{
    is_usable_participant_value, json_patch, remove_null_fields, JsonValue,
};
use psysonic_library::json::i64_field;
use psysonic_library::text::{is_blank, string_from};

fn s(text: &str) -> JsonValue {
    JsonValue::String(text.to_string())
}

fn n(text: &str) -> JsonValue {
    JsonValue::Number(text.to_string())
}

fn obj(entries: Vec<(&str, JsonValue)>) -> JsonValue {
    JsonValue::Object(entries.into_iter().map(|(k, v)| (k.to_string(), v)).collect())
}

#[test]
fn usable_participant_values() {
    assert!(!is_usable_participant_value(&JsonValue::Null));
    assert!(!is_usable_participant_value(&JsonValue::Array(vec![])));
    assert!(!is_usable_participant_value(&s("")));
    assert!(!is_usable_participant_value(&s(" \t\u{3000}")));
    assert!(is_usable_participant_value(&s(" x ")));
    assert!(is_usable_participant_value(&JsonValue::Array(vec![JsonValue::Null])));
    assert!(is_usable_participant_value(&JsonValue::Bool(false)));
    assert!(is_usable_participant_value(&n("0")));
    assert!(is_usable_participant_value(&obj(vec![])));
}

#[test]
fn null_members_are_dropped_at_every_depth() {
    let mut v = obj(vec![
        ("a", JsonValue::Null),
        ("b", obj(vec![("c", JsonValue::Null), ("d", n("1"))])),
        ("e", JsonValue::Array(vec![JsonValue::Null, obj(vec![("f", JsonValue::Null)])])),
    ]);
    remove_null_fields(&mut v);
    assert_eq!(
        v,
        obj(vec![
            ("b", obj(vec![("d", n("1"))])),
            ("e", JsonValue::Array(vec![JsonValue::Null, obj(vec![])])),
        ])
    );
    remove_null_fields(&mut v);
    assert_eq!(
        v,
        obj(vec![
            ("b", obj(vec![("d", n("1"))])),
            ("e", JsonValue::Array(vec![JsonValue::Null, obj(vec![])])),
        ])
    );
}

#[test]
fn merge_patch_follows_rfc_7396() {
    let target = obj(vec![("a", s("b")), ("c", obj(vec![("d", s("e")), ("f", s("g"))]))]);
    let patch = obj(vec![("a", s("z")), ("c", obj(vec![("f", JsonValue::Null)]))]);
    assert_eq!(
        json_patch(&target, &patch),
        obj(vec![("a", s("z")), ("c", obj(vec![("d", s("e"))]))])
    );
    // A patch that is not an object replaces the target.
    assert_eq!(json_patch(&target, &s("x")), s("x"));
    // A target that is not an object is treated as an empty one.
    assert_eq!(json_patch(&s("x"), &obj(vec![("a", JsonValue::Null), ("b", n("2"))])), obj(vec![("b", n("2"))]));
    // New members go to the end, nested objects are merged from nothing.
    assert_eq!(
        json_patch(&obj(vec![("a", n("1"))]), &obj(vec![("z", obj(vec![("y", JsonValue::Null), ("x", n("3"))]))])),
        obj(vec![("a", n("1")), ("z", obj(vec![("x", n("3"))]))])
    );
}

#[test]
fn white_space_and_integer_text() {
    assert!(is_blank(" "));
    assert!(is_blank("\u{85}"));
    assert!(is_blank("\u{2009}\u{3000}"));
    assert!(!is_blank("\u{200B}"));
    assert!(!is_blank("x"));
    assert!(is_blank(""));
    assert!(is_blank("\n\t "));
    assert!(!is_blank(" a "));
    assert_eq!(string_from("abc"), "abc".to_string());
    let field = |text: &str| i64_field(&obj(vec![("n", n(text))]), "n");
    assert_eq!(field("42"), Some(42));
    assert_eq!(field("+7"), Some(7));
    assert_eq!(field("-007"), Some(-7));
    assert_eq!(field("-"), None);
    assert_eq!(field(""), None);
    assert_eq!(field("1.0"), None);
    assert_eq!(field("9223372036854775808"), None);
    assert_eq!(field("-9223372036854775808"), Some(i64::MIN));
    assert_eq!(i64_field(&obj(vec![("n", s("42"))]), "n"), None);
}
