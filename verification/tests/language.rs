use eve_sde_mcp::json::{apply_language_filter, filter_language, JsonValue};

fn text(s: &str) -> JsonValue {
    JsonValue::Str(s.to_string())
}

fn number(s: &str) -> JsonValue {
    JsonValue::Number(s.to_string())
}

fn object(entries: Vec<(&str, JsonValue)>) -> JsonValue {
    JsonValue::Object(entries.into_iter().map(|(k, v)| (k.to_string(), v)).collect())
}

fn field<'a>(v: &'a JsonValue, key: &str) -> &'a JsonValue {
    match v {
        JsonValue::Object(es) => &es.iter().find(|(k, _)| k == key).expect("key present").1,
        _ => panic!("not an object"),
    }
}

#[test]
fn apply_language_filter_replaces_localized_objects() {
    let mut val = object(vec![
        ("_key", number("34")),
        (
            "name",
            object(vec![("en", text("Tritanium")), ("de", text("Tritanium")), ("fr", text("Tritanium"))]),
        ),
    ]);
    apply_language_filter(&mut val, "de");
    assert_eq!(field(&val, "name"), &text("Tritanium"));
}

#[test]
fn apply_language_filter_falls_back_to_en() {
    let mut val = object(vec![(
        "name",
        object(vec![("en", text("Tritanium")), ("de", text("Tritanium"))]),
    )]);
    apply_language_filter(&mut val, "ja");
    assert_eq!(field(&val, "name"), &text("Tritanium"));
}

#[test]
fn apply_language_filter_handles_all_eight_sde_languages() {
    let mut val = object(vec![(
        "name",
        object(vec![
            ("de", text("Mineralien")),
            ("en", text("Mineral")),
            ("es", text("Mineral")),
            ("fr", text("Minéral")),
            ("ja", text("無機物")),
            ("ko", text("광물")),
            ("ru", text("Минералы")),
            ("zh", text("矿物")),
        ]),
    )]);
    apply_language_filter(&mut val, "en");
    assert_eq!(field(&val, "name"), &text("Mineral"));
}

#[test]
fn apply_language_filter_skips_non_localized_objects() {
    let mut val = object(vec![("typeID", number("34")), ("quantity", number("1"))]);
    apply_language_filter(&mut val, "en");
    assert_eq!(field(&val, "typeID"), &number("34"));
    assert_eq!(field(&val, "quantity"), &number("1"));
}

#[test]
fn language_filter_picks_the_requested_language_over_english() {
    let val = object(vec![("name", object(vec![("en", text("Mineral")), ("de", text("Mineralien"))]))]);
    let out = filter_language(val, "de");
    assert_eq!(field(&out, "name"), &text("Mineralien"));
}

#[test]
fn language_filter_leaves_an_object_with_a_foreign_key_whole() {
    let inner = || object(vec![("en", text("Mineral")), ("xx", text("?"))]);
    let val = object(vec![("name", inner())]);
    let out = filter_language(val, "en");
    assert_eq!(field(&out, "name"), &inner());
}

#[test]
fn language_filter_needs_an_english_entry() {
    let inner = || object(vec![("de", text("Mineralien"))]);
    let out = filter_language(JsonValue::Array(vec![inner()]), "de");
    assert_eq!(out, JsonValue::Array(vec![inner()]));
}

#[test]
fn language_filter_reaches_into_arrays() {
    let val = JsonValue::Array(vec![
        object(vec![("name", object(vec![("en", text("A")), ("fr", text("B"))]))]),
        JsonValue::Bool(true),
    ]);
    let out = filter_language(val, "fr");
    match &out {
        JsonValue::Array(xs) => {
            assert_eq!(field(&xs[0], "name"), &text("B"));
            assert_eq!(xs[1], JsonValue::Bool(true));
        }
        _ => panic!("not an array"),
    }
}
