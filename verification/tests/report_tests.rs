use doc_assert::path::JSONPath;
use doc_assert::value::{JsonValue, Number, NumberRepr};
use doc_assert::variables::{extract_value, Variables};
use doc_assert::{AssertionError, Report, TestOutcome};

fn num(v: i64) -> JsonValue {
    JsonValue::Num(Number {
        repr: if v >= 0 {
            NumberRepr::PosInt(v as u64)
        } else {
            NumberRepr::NegInt(v)
        },
        bits: (v as f64).to_bits(),
        text: v.to_string(),
    })
}

#[test]
fn test_report_from_outcomes_all_passed() {
    let outcomes = vec![
        TestOutcome {
            id: "GET /a (doc.md:1)".to_string(),
            failure: None,
        },
        TestOutcome {
            id: "POST /b (doc.md:9)".to_string(),
            failure: None,
        },
    ];
    let report = Report::from_outcomes(&outcomes).unwrap();
    assert_eq!(report.total_count, 2);
    assert_eq!(report.failed_count, 0);
    let text = report.render();
    assert_eq!(
        text,
        "2 tests\nGET /a (doc.md:1) \u{2705}\nPOST /b (doc.md:9) \u{2705}\n\ntest result: PASSED. 2 passed; 0 failed"
    );
}

#[test]
fn test_report_from_outcomes_with_failures() {
    let outcomes = vec![
        TestOutcome {
            id: "GET /a (doc.md:1)".to_string(),
            failure: None,
        },
        TestOutcome {
            id: "POST /b (doc.md:9)".to_string(),
            failure: Some("expected response code 200, got 500".to_string()),
        },
    ];
    match Report::from_outcomes(&outcomes) {
        Err(AssertionError::TestSuiteError(report)) => {
            assert_eq!(report.total_count, 2);
            assert_eq!(report.failed_count, 1);
            let text = report.render();
            assert!(text.contains("failures:"));
            assert!(text.contains("POST /b (doc.md:9): expected response code 200, got 500"));
            assert!(text.ends_with("test result: FAILED. 1 passed; 1 failed"));
        }
        _ => panic!("expected a test suite error"),
    }
}

#[test]
fn test_variables_insert_and_replace() {
    let mut vars = Variables::new();
    vars.insert_string("name".to_string(), "John".to_string());
    vars.insert_bool("is_adult".to_string(), true);
    vars.insert_null("nothing".to_string());
    vars.insert_value("age".to_string(), num(30));

    let body = "{\"name\":`name`,\"age\":`age`,\"adult\":`is_adult`}".to_string();
    let replaced = vars.replace_placeholders(&body, false).unwrap();
    assert_eq!(replaced, "{\"name\":\"John\",\"age\":30,\"adult\":true}");

    let uri = "/users/`name`".to_string();
    let replaced = vars.replace_placeholders(&uri, true).unwrap();
    assert_eq!(replaced, "/users/John");

    let unresolved = "/users/`missing`".to_string();
    assert!(vars.replace_placeholders(&unresolved, true).is_err());
}

#[test]
fn test_variables_from_json_requires_object() {
    let json = JsonValue::Object(vec![
        ("name".to_string(), JsonValue::Str("John".to_string())),
        ("age".to_string(), num(30)),
    ]);
    let vars = Variables::from_json(&json).unwrap();
    let body = "`name` is `age`".to_string();
    let replaced = vars.replace_placeholders(&body, false).unwrap();
    assert_eq!(replaced, "\"John\" is 30");

    assert!(Variables::from_json(&JsonValue::Str("x".to_string())).is_err());
}

#[test]
fn test_extract_value_walks_fields_and_indexes() {
    let response = JsonValue::Object(vec![
        (
            "user".to_string(),
            JsonValue::Object(vec![
                ("id".to_string(), num(7)),
                (
                    "tags".to_string(),
                    JsonValue::Array(vec![
                        JsonValue::Str("a".to_string()),
                        JsonValue::Str("b".to_string()),
                    ]),
                ),
            ]),
        ),
    ]);
    let path = "$.user.id".jsonpath().unwrap();
    let v = extract_value(&path, &response).unwrap();
    assert_eq!(v.to_text(), "7");

    let path = "$.user.tags[1]".jsonpath().unwrap();
    let v = extract_value(&path, &response).unwrap();
    assert_eq!(v.to_text(), "\"b\"");

    let path = "$.user.missing".jsonpath().unwrap();
    assert!(extract_value(&path, &response).is_none());

    let path = "$".jsonpath().unwrap();
    assert!(extract_value(&path, &response).is_none());
}

#[test]
fn test_variables_obtain_from_response() {
    let response = JsonValue::Object(vec![("id".to_string(), num(1))]);
    let mut vars = Variables::new();
    let templates = vec![("id".to_string(), "$.id".jsonpath().unwrap())];
    assert!(vars.obtain_from_response(&response, &templates).is_ok());
    let uri = "/users/`id`".to_string();
    assert_eq!(vars.replace_placeholders(&uri, true).unwrap(), "/users/1");

    let templates = vec![("missing".to_string(), "$.missing".jsonpath().unwrap())];
    assert!(vars.obtain_from_response(&response, &templates).is_err());
}
