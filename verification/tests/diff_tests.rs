use doc_assert::diff::{diff, CompareMode, Config, NumericMode};
use doc_assert::path::{JSONPath, Path};
use doc_assert::value::{JsonValue, Number, NumberRepr};

fn jnull() -> JsonValue {
    JsonValue::Null
}

fn jbool(b: bool) -> JsonValue {
    JsonValue::Bool(b)
}

fn jint(v: i64) -> JsonValue {
    let repr = if v >= 0 {
        NumberRepr::PosInt(v as u64)
    } else {
        NumberRepr::NegInt(v)
    };
    JsonValue::Num(Number {
        repr,
        bits: (v as f64).to_bits(),
        text: v.to_string(),
    })
}

fn jfloat(v: f64) -> JsonValue {
    let normalized = if v == 0.0 { 0.0f64 } else { v };
    JsonValue::Num(Number {
        repr: NumberRepr::Float,
        bits: normalized.to_bits(),
        text: format!("{:?}", v),
    })
}

fn jstr(s: &str) -> JsonValue {
    JsonValue::Str(s.to_string())
}

fn jarr(items: Vec<JsonValue>) -> JsonValue {
    JsonValue::Array(items)
}

fn jobj(entries: Vec<(&str, JsonValue)>) -> JsonValue {
    JsonValue::Object(
        entries
            .into_iter()
            .map(|(k, v)| (k.to_string(), v))
            .collect(),
    )
}

fn jpath(text: &str) -> Path {
    text.jsonpath().unwrap()
}

#[test]
fn test_diffing_leaf_json() {
    let diffs = diff(&jnull(), &jnull(), Config::new(CompareMode::Inclusive));
    assert_eq!(diffs.len(), 0);

    let diffs = diff(&jbool(false), &jbool(false), Config::new(CompareMode::Inclusive));
    assert_eq!(diffs.len(), 0);

    let diffs = diff(&jbool(true), &jbool(true), Config::new(CompareMode::Inclusive));
    assert_eq!(diffs.len(), 0);

    let diffs = diff(&jbool(false), &jbool(true), Config::new(CompareMode::Inclusive));
    assert_eq!(diffs.len(), 1);

    let diffs = diff(&jbool(true), &jbool(false), Config::new(CompareMode::Inclusive));
    assert_eq!(diffs.len(), 1);

    let diffs = diff(&jint(1), &jint(1), Config::new(CompareMode::Inclusive));
    assert_eq!(diffs.len(), 0);

    let diffs = diff(&jint(2), &jint(1), Config::new(CompareMode::Inclusive));
    assert_eq!(diffs.len(), 1);

    let diffs = diff(&jint(1), &jint(2), Config::new(CompareMode::Inclusive));
    assert_eq!(diffs.len(), 1);

    let diffs = diff(&jfloat(1.0), &jfloat(1.0), Config::new(CompareMode::Inclusive));
    assert_eq!(diffs.len(), 0);

    let diffs = diff(&jint(1), &jfloat(1.0), Config::new(CompareMode::Inclusive));
    assert_eq!(diffs.len(), 1);

    let diffs = diff(&jfloat(1.0), &jint(1), Config::new(CompareMode::Inclusive));
    assert_eq!(diffs.len(), 1);

    let diffs = diff(
        &jint(1),
        &jfloat(1.0),
        Config::new(CompareMode::Inclusive).numeric_mode(NumericMode::AssumeFloat),
    );
    assert_eq!(diffs.len(), 0);

    let diffs = diff(
        &jfloat(1.0),
        &jint(1),
        Config::new(CompareMode::Inclusive).numeric_mode(NumericMode::AssumeFloat),
    );
    assert_eq!(diffs.len(), 0);
}

#[test]
fn mod_test_diffing_leaf_json() {
    let diffs = diff(&jnull(), &jnull(), Config::new(CompareMode::Inclusive));
    assert_eq!(diffs.len(), 0);

    let diffs = diff(&jbool(false), &jbool(true), Config::new(CompareMode::Inclusive));
    assert_eq!(diffs.len(), 1);

    let diffs = diff(&jint(1), &jfloat(1.0), Config::new(CompareMode::Inclusive));
    assert_eq!(diffs.len(), 1);

    let diffs = diff(
        &jint(1),
        &jfloat(1.0),
        Config::new(CompareMode::Inclusive).numeric_mode(NumericMode::AssumeFloat),
    );
    assert_eq!(diffs.len(), 0);
}

#[test]
fn test_diffing_array() {
    // empty
    let diffs = diff(&jarr(vec![]), &jarr(vec![]), Config::new(CompareMode::Inclusive));
    assert_eq!(diffs.len(), 0);

    let diffs = diff(&jarr(vec![jint(1)]), &jarr(vec![]), Config::new(CompareMode::Inclusive));
    assert_eq!(diffs.len(), 0);

    let diffs = diff(&jarr(vec![]), &jarr(vec![jint(1)]), Config::new(CompareMode::Inclusive));
    assert_eq!(diffs.len(), 1);

    // eq
    let diffs = diff(
        &jarr(vec![jint(1)]),
        &jarr(vec![jint(1)]),
        Config::new(CompareMode::Inclusive),
    );
    assert_eq!(diffs.len(), 0);

    // expected longer
    let diffs = diff(
        &jarr(vec![jint(1), jint(2)]),
        &jarr(vec![jint(1)]),
        Config::new(CompareMode::Inclusive),
    );
    assert_eq!(diffs.len(), 0);

    // actual longer
    let diffs = diff(
        &jarr(vec![jint(1)]),
        &jarr(vec![jint(1), jint(2)]),
        Config::new(CompareMode::Inclusive),
    );
    assert_eq!(diffs.len(), 1);

    // eq length but different
    let diffs = diff(
        &jarr(vec![jint(1), jint(3)]),
        &jarr(vec![jint(1), jint(2)]),
        Config::new(CompareMode::Inclusive),
    );
    assert_eq!(diffs.len(), 1);

    // different types
    let diffs = diff(&jint(1), &jarr(vec![jint(1)]), Config::new(CompareMode::Inclusive));
    assert_eq!(diffs.len(), 1);

    let diffs = diff(&jarr(vec![jint(1)]), &jint(1), Config::new(CompareMode::Inclusive));
    assert_eq!(diffs.len(), 1);
}

#[test]
fn mod_test_diffing_array() {
    let diffs = diff(
        &jarr(vec![jint(1), jint(2)]),
        &jarr(vec![jint(1)]),
        Config::new(CompareMode::Inclusive),
    );
    assert_eq!(diffs.len(), 0);

    let diffs = diff(
        &jarr(vec![jint(1)]),
        &jarr(vec![jint(1), jint(2)]),
        Config::new(CompareMode::Inclusive),
    );
    assert_eq!(diffs.len(), 1);
}

#[test]
fn test_array_strict() {
    let diffs = diff(&jarr(vec![]), &jarr(vec![]), Config::new(CompareMode::Strict));
    assert_eq!(diffs.len(), 0);

    let diffs = diff(
        &jarr(vec![jint(1), jint(2)]),
        &jarr(vec![jint(1), jint(2)]),
        Config::new(CompareMode::Strict),
    );
    assert_eq!(diffs.len(), 0);

    let diffs = diff(
        &jarr(vec![jint(1)]),
        &jarr(vec![jint(1), jint(2)]),
        Config::new(CompareMode::Strict),
    );
    assert_eq!(diffs.len(), 1);

    let diffs = diff(
        &jarr(vec![jint(1), jint(2)]),
        &jarr(vec![jint(1)]),
        Config::new(CompareMode::Strict),
    );
    assert_eq!(diffs.len(), 1);
}

#[test]
fn mod_test_array_strict() {
    let diffs = diff(
        &jarr(vec![jint(1)]),
        &jarr(vec![jint(1), jint(2)]),
        Config::new(CompareMode::Strict),
    );
    assert_eq!(diffs.len(), 1);

    let diffs = diff(
        &jarr(vec![jint(1), jint(2)]),
        &jarr(vec![jint(1)]),
        Config::new(CompareMode::Strict),
    );
    assert_eq!(diffs.len(), 1);
}

#[test]
fn test_object() {
    let diffs = diff(&jobj(vec![]), &jobj(vec![]), Config::new(CompareMode::Inclusive));
    assert_eq!(diffs.len(), 0);

    let diffs = diff(
        &jobj(vec![("a", jint(1))]),
        &jobj(vec![("a", jint(1))]),
        Config::new(CompareMode::Inclusive),
    );
    assert_eq!(diffs.len(), 0);

    let diffs = diff(
        &jobj(vec![("a", jint(1)), ("b", jint(123))]),
        &jobj(vec![("a", jint(1))]),
        Config::new(CompareMode::Inclusive),
    );
    assert_eq!(diffs.len(), 0);

    let diffs = diff(
        &jobj(vec![("a", jint(1))]),
        &jobj(vec![("b", jint(1))]),
        Config::new(CompareMode::Inclusive),
    );
    assert_eq!(diffs.len(), 1);

    let diffs = diff(
        &jobj(vec![("a", jint(1))]),
        &jobj(vec![("a", jint(2))]),
        Config::new(CompareMode::Inclusive),
    );
    assert_eq!(diffs.len(), 1);

    let diffs = diff(
        &jobj(vec![("a", jobj(vec![("b", jbool(true))]))]),
        &jobj(vec![("a", jobj(vec![]))]),
        Config::new(CompareMode::Inclusive),
    );
    assert_eq!(diffs.len(), 0);
}

#[test]
fn mod_test_object() {
    let diffs = diff(
        &jobj(vec![("a", jint(1)), ("b", jint(123))]),
        &jobj(vec![("a", jint(1))]),
        Config::new(CompareMode::Inclusive),
    );
    assert_eq!(diffs.len(), 0);

    let diffs = diff(
        &jobj(vec![("a", jint(1))]),
        &jobj(vec![("b", jint(1))]),
        Config::new(CompareMode::Inclusive),
    );
    assert_eq!(diffs.len(), 1);
}

#[test]
fn test_object_strict() {
    let diffs = diff(
        &jobj(vec![]),
        &jobj(vec![("a", jint(1))]),
        Config::new(CompareMode::Strict),
    );
    assert_eq!(diffs.len(), 1);

    let diffs = diff(
        &jobj(vec![("a", jint(1))]),
        &jobj(vec![]),
        Config::new(CompareMode::Strict),
    );
    assert_eq!(diffs.len(), 1);

    let json = jobj(vec![("a", jint(1))]);
    let diffs = diff(&json, &json, Config::new(CompareMode::Strict));
    assert_eq!(diffs.len(), 0);
}

#[test]
fn mod_test_object_strict() {
    let diffs = diff(
        &jobj(vec![]),
        &jobj(vec![("a", jint(1))]),
        Config::new(CompareMode::Strict),
    );
    assert_eq!(diffs.len(), 1);

    let json = jobj(vec![("a", jint(1))]);
    let diffs = diff(&json, &json, Config::new(CompareMode::Strict));
    assert_eq!(diffs.len(), 0);
}

#[test]
fn test_object_deep_path() {
    let expected = jobj(vec![("id", jint(1)), ("name", jstr("John"))]);
    let actual = jobj(vec![("id", jint(2)), ("name", jstr("John"))]);
    let ignore_path = Path::from_jsonpath("$.id").unwrap();
    let diffs = diff(
        &expected,
        &actual,
        Config::new(CompareMode::Strict).ignore_path(ignore_path),
    );
    assert_eq!(diffs.len(), 0);

    let expected = jobj(vec![(
        "a",
        jobj(vec![(
            "b",
            jarr(vec![jobj(vec![("c", jint(0))]), jobj(vec![("c", jint(1))])]),
        )]),
    )]);
    let actual = jobj(vec![(
        "a",
        jobj(vec![(
            "b",
            jarr(vec![jobj(vec![("c", jint(0))]), jobj(vec![("c", jint(2))])]),
        )]),
    )]);
    let ignore_path = Path::from_jsonpath("$.a.b[*].c").unwrap();
    let config = Config::new(CompareMode::Strict).ignore_path(ignore_path);
    let diffs = diff(&expected, &actual, config);
    assert_eq!(diffs.len(), 0);

    // deeper nesting with ignored path
    let expected = jobj(vec![(
        "a",
        jobj(vec![("b", jobj(vec![("d", jobj(vec![("e", jint(3))]))]))]),
    )]);
    let actual = jobj(vec![(
        "a",
        jobj(vec![("b", jobj(vec![("d", jobj(vec![("e", jint(4))]))]))]),
    )]);
    let ignore_path = Path::from_jsonpath("$.a.b.d.e").unwrap();
    let config = Config::new(CompareMode::Strict).ignore_path(ignore_path);
    let diffs = diff(&expected, &actual, config);
    assert_eq!(diffs.len(), 0);

    // array within deep object structure
    let expected = jobj(vec![(
        "a",
        jobj(vec![(
            "b",
            jarr(vec![jobj(vec![("d", jarr(vec![jint(1), jint(2), jint(3)]))])]),
        )]),
    )]);
    let actual = jobj(vec![(
        "a",
        jobj(vec![(
            "b",
            jarr(vec![jobj(vec![("d", jarr(vec![jint(1), jint(2), jint(4)]))])]),
        )]),
    )]);
    let ignore_path = Path::from_jsonpath("$.a.b[*].d[*]").unwrap();
    let config = Config::new(CompareMode::Strict).ignore_path(ignore_path);
    let diffs = diff(&expected, &actual, config);
    assert_eq!(diffs.len(), 0);

    // multiple ignore paths
    let expected = jobj(vec![(
        "a",
        jobj(vec![("x", jint(1)), ("y", jint(2)), ("z", jint(3))]),
    )]);
    let actual = jobj(vec![(
        "a",
        jobj(vec![("x", jint(1)), ("y", jint(3)), ("z", jint(3))]),
    )]);
    let ignore_path1 = Path::from_jsonpath("$.a.x").unwrap();
    let ignore_path2 = Path::from_jsonpath("$.a.y").unwrap();
    let config = Config::new(CompareMode::Strict)
        .ignore_path(ignore_path1)
        .ignore_path(ignore_path2);
    let diffs = diff(&expected, &actual, config);
    assert_eq!(diffs.len(), 0);

    // ignored path with non-matching element
    let expected = jobj(vec![("a", jobj(vec![("b", jint(1)), ("c", jint(2))]))]);
    let actual = jobj(vec![("a", jobj(vec![("b", jint(1)), ("c", jint(3))]))]);
    let ignore_path = Path::from_jsonpath("$.a.d").unwrap();
    let config = Config::new(CompareMode::Strict).ignore_path(ignore_path);
    let diffs = diff(&expected, &actual, config);
    assert_ne!(diffs.len(), 0);

    let expected = jobj(vec![("a", jarr(vec![jstr("b"), jstr("c")]))]);
    let actual = jobj(vec![("a", jarr(vec![jstr("c"), jstr("b")]))]);
    let ignore_order_path = Path::from_jsonpath("$.a").unwrap();
    let config = Config::new(CompareMode::Strict).ignore_order(ignore_order_path);
    let diffs = diff(&expected, &actual, config);
    assert_eq!(diffs.len(), 0);

    let expected = jobj(vec![("a", jarr(vec![jstr("b"), jstr("c")]))]);
    let actual = jobj(vec![("a", jarr(vec![jstr("c"), jstr("d")]))]);
    let ignore_order_path = Path::from_jsonpath("$.a").unwrap();
    let config = Config::new(CompareMode::Strict).ignore_order(ignore_order_path);
    let diffs = diff(&expected, &actual, config);
    assert_eq!(diffs.len(), 2);
}

#[test]
fn mod_test_object_deep_path() {
    let expected = jobj(vec![(
        "a",
        jobj(vec![(
            "b",
            jarr(vec![jobj(vec![("c", jint(0))]), jobj(vec![("c", jint(1))])]),
        )]),
    )]);
    let actual = jobj(vec![(
        "a",
        jobj(vec![(
            "b",
            jarr(vec![jobj(vec![("c", jint(0))]), jobj(vec![("c", jint(2))])]),
        )]),
    )]);
    let ignore_path = Path::from_jsonpath("$.a.b[*].c").unwrap();
    let config = Config::new(CompareMode::Strict).ignore_path(ignore_path);
    let diffs = diff(&expected, &actual, config);
    assert_eq!(diffs.len(), 0);

    let expected = jobj(vec![(
        "a",
        jobj(vec![("x", jint(1)), ("y", jint(2)), ("z", jint(3))]),
    )]);
    let actual = jobj(vec![(
        "a",
        jobj(vec![("x", jint(1)), ("y", jint(3)), ("z", jint(3))]),
    )]);
    let config = Config::new(CompareMode::Strict)
        .ignore_path(Path::from_jsonpath("$.a.x").unwrap())
        .ignore_path(Path::from_jsonpath("$.a.y").unwrap());
    let diffs = diff(&expected, &actual, config);
    assert_eq!(diffs.len(), 0);

    let expected = jobj(vec![("a", jobj(vec![("b", jint(1)), ("c", jint(2))]))]);
    let actual = jobj(vec![("a", jobj(vec![("b", jint(1)), ("c", jint(3))]))]);
    let config = Config::new(CompareMode::Strict).ignore_path(Path::from_jsonpath("$.a.d").unwrap());
    let diffs = diff(&expected, &actual, config);
    assert_ne!(diffs.len(), 0);
}

#[test]
fn test_inclusive_is_not_symmetric() {
    // the first value may hold members beyond those of the second
    let bigger = jobj(vec![("a", jint(1)), ("b", jint(2))]);
    let smaller = jobj(vec![("a", jint(1))]);
    let diffs = diff(&bigger, &smaller, Config::new(CompareMode::Inclusive));
    assert_eq!(diffs.len(), 0);
    let diffs = diff(&smaller, &bigger, Config::new(CompareMode::Inclusive));
    assert_eq!(diffs.len(), 1);

    // the same with arrays
    let longer = jarr(vec![jint(1), jint(2)]);
    let shorter = jarr(vec![jint(1)]);
    let diffs = diff(&longer, &shorter, Config::new(CompareMode::Inclusive));
    assert_eq!(diffs.len(), 0);
    let diffs = diff(&shorter, &longer, Config::new(CompareMode::Inclusive));
    assert_eq!(diffs.len(), 1);
}

#[test]
fn test_strict_reflexive_on_nested_value() {
    let v = jobj(vec![
        ("a", jarr(vec![jint(1), jfloat(2.5), jnull()])),
        ("b", jobj(vec![("c", jstr("x")), ("d", jbool(true))])),
    ]);
    let diffs = diff(&v, &v, Config::new(CompareMode::Strict));
    assert_eq!(diffs.len(), 0);
}

#[test]
fn test_ignore_order_greedy_matching() {
    // equal multisets in different order match without difference
    let expected = jarr(vec![jint(1), jint(2), jint(3)]);
    let actual = jarr(vec![jint(3), jint(1), jint(2)]);
    let config = Config::new(CompareMode::Strict).ignore_order(jpath("$"));
    let diffs = diff(&expected, &actual, config);
    assert_eq!(diffs.len(), 0);

    // an unmatched element is reported for the whole array
    let expected = jarr(vec![jint(1), jint(2)]);
    let actual = jarr(vec![jint(1), jint(4)]);
    let config = Config::new(CompareMode::Strict).ignore_order(jpath("$"));
    let diffs = diff(&expected, &actual, config);
    assert_eq!(diffs.len(), 2);

    // a length mismatch under the strict mode is reported up front
    let expected = jarr(vec![jint(1)]);
    let actual = jarr(vec![jint(1), jint(1)]);
    let config = Config::new(CompareMode::Strict).ignore_order(jpath("$"));
    let diffs = diff(&expected, &actual, config);
    assert!(diffs.len() >= 1);
}

#[test]
fn test_ignore_order_type_mismatch_is_reported() {
    // a type mismatch is reported even at an address registered for
    // order-insensitive comparison
    let expected = jobj(vec![("a", jarr(vec![jint(1)]))]);
    let actual = jobj(vec![("a", jint(1))]);
    let config = Config::new(CompareMode::Strict).ignore_order(jpath("$.a"));
    let diffs = diff(&expected, &actual, config);
    assert_eq!(diffs.len(), 1);

    // unless the address is also excluded from reporting
    let config = Config::new(CompareMode::Strict)
        .ignore_order(jpath("$.a"))
        .ignore_path(jpath("$.a"));
    let diffs = diff(&expected, &actual, config);
    assert_eq!(diffs.len(), 0);
}

#[test]
fn test_config_queries() {
    let config = Config::new(CompareMode::Strict)
        .ignore_path(jpath("$.a.*"))
        .ignore_order(jpath("$.b"));
    assert!(config.to_ignore(&jpath("$.a.x")));
    assert!(config.to_ignore(&jpath("$.a.x[3]")));
    assert!(!config.to_ignore(&jpath("$.b")));
    assert!(config.to_ignore_order(&jpath("$.b")));
    assert!(!config.to_ignore_order(&jpath("$.b[0]")));
}

#[test]
fn test_difference_message() {
    let expected = jobj(vec![("a", jint(1))]);
    let actual = jobj(vec![("a", jint(2))]);
    let diffs = diff(&expected, &actual, Config::new(CompareMode::Strict));
    assert_eq!(diffs.len(), 1);
    let message = diffs[0].render();
    assert_eq!(
        message,
        "json atoms at path \".a\" are not equal:\n    actual:\n        2\n    expected:\n        1"
    );

    let expected = jobj(vec![("a", jint(1))]);
    let actual = jobj(vec![]);
    let diffs = diff(&expected, &actual, Config::new(CompareMode::Strict));
    assert_eq!(diffs.len(), 1);
    let message = diffs[0].render();
    assert_eq!(message, "json atom at path \"(root)\" is missing from actual");
}

#[test]
fn test_value_to_pretty_text() {
    let v = jobj(vec![
        ("a", jarr(vec![jint(1), jint(2)])),
        ("b", jobj(vec![])),
    ]);
    assert_eq!(
        v.to_pretty_text(),
        "{\n  \"a\": [\n    1,\n    2\n  ],\n  \"b\": {}\n}"
    );
    assert_eq!(jint(7).to_pretty_text(), "7");
    assert_eq!(jarr(vec![]).to_pretty_text(), "[]");
}

#[test]
fn test_difference_message_pretty_snippets() {
    let expected = jobj(vec![("a", jarr(vec![jint(1)]))]);
    let actual = jobj(vec![("a", jarr(vec![jint(2)]))]);
    let diffs = diff(&expected, &actual, Config::new(CompareMode::Strict));
    assert_eq!(diffs.len(), 1);
    let message = diffs[0].render();
    assert_eq!(
        message,
        "json atoms at path \".a[0]\" are not equal:\n    actual:\n        2\n    expected:\n        1"
    );

    let expected = jarr(vec![jint(1), jint(3)]);
    let actual = jarr(vec![jint(1)]);
    let diffs = diff(&expected, &actual, Config::new(CompareMode::Inclusive));
    assert_eq!(diffs.len(), 0);
    let diffs = diff(&actual, &expected, Config::new(CompareMode::Inclusive));
    assert_eq!(diffs.len(), 1);
    let message = diffs[0].render();
    assert_eq!(
        message,
        "json atom at path \"(root)\" is missing from expected"
    );
}

#[test]
fn test_value_to_text() {
    let v = jobj(vec![
        ("a", jarr(vec![jint(1), jstr("x\"y"), jnull(), jbool(false)])),
        ("b", jfloat(2.5)),
    ]);
    assert_eq!(v.to_text(), "{\"a\":[1,\"x\\\"y\",null,false],\"b\":2.5}");
}
