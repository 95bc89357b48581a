use doc_assert::domain::HttpMethod;
use doc_assert::parser::parse;

fn sample_doc() -> String {
    [
        "# Sample API",
        "",
        "Create a user:",
        "",
        "```docassertrequest",
        "POST /api/user",
        "Content-Type: application/json",
        "{\"name\": \"test\"}",
        "```",
        "",
        "```docassertresponse",
        "HTTP 201",
        "Content-Type: application/json",
        "{\"id\": 1,\"name\": \"test\"}",
        "```",
        "",
        "[ignore]: # ($.id)",
        "[ignore-order]: # ($.tags)",
        "[let user_id]: # ($.id)",
        "[retry]: # (3, 150)",
        "",
    ]
    .join("\n")
}

#[test]
fn test_parse_sample_document() {
    let result = parse(sample_doc().as_str());
    assert!(result.is_ok());
    let test_cases = result.unwrap();
    assert_eq!(test_cases.len(), 1);
    // request
    assert_eq!(test_cases[0].request.http_method, HttpMethod::Post);
    assert_eq!(test_cases[0].request.uri, "/api/user");
    assert_eq!(test_cases[0].request.headers.len(), 1);
    assert_eq!(test_cases[0].request.headers[0].0, "Content-Type");
    assert_eq!(test_cases[0].request.headers[0].1, "application/json");
    assert_eq!(
        test_cases[0].request.body.as_ref().unwrap(),
        "{\"name\": \"test\"}"
    );
    assert_eq!(test_cases[0].request.line_number, 5);
    // response
    assert_eq!(test_cases[0].response.code, 201);
    assert_eq!(test_cases[0].response.headers.len(), 1);
    assert_eq!(
        test_cases[0].response.body.as_ref().unwrap(),
        "{\"id\": 1,\"name\": \"test\"}"
    );
    assert_eq!(test_cases[0].response.ignore_paths[0], "$.id".to_string());
    assert_eq!(test_cases[0].response.ignore_orders[0], "$.tags".to_string());
    assert_eq!(test_cases[0].response.variables.len(), 1);
    assert_eq!(test_cases[0].response.variables[0].0, "user_id");
    assert_eq!(test_cases[0].response.retries.max_retries, 3);
    assert_eq!(test_cases[0].response.retries.delay, 150);
}

#[test]
fn test_parse_rejects_unbalanced_blocks() {
    let doc = [
        "```docassertrequest",
        "GET /x",
        "```",
    ]
    .join("\n");
    assert!(parse(doc.as_str()).is_err());
}

#[test]
fn test_parse_rejects_misplaced_directive() {
    let doc = ["[ignore]: # ($.id)"].join("\n");
    assert!(parse(doc.as_str()).is_err());
}

#[test]
fn test_parse_rejects_invalid_ignore_path() {
    let doc = [
        "```docassertrequest",
        "GET /x",
        "```",
        "```docassertresponse",
        "HTTP 200",
        "```",
        "[ignore]: # (id)",
    ]
    .join("\n");
    assert!(parse(doc.as_str()).is_err());
}

#[test]
fn test_parse_rejects_bad_status_code() {
    let doc = [
        "```docassertrequest",
        "GET /x",
        "```",
        "```docassertresponse",
        "HTTP 42",
        "```",
    ]
    .join("\n");
    assert!(parse(doc.as_str()).is_err());
}

#[test]
fn test_http_method_parse() {
    assert_eq!(HttpMethod::parse("GET").unwrap(), HttpMethod::Get);
    assert_eq!(HttpMethod::parse("post").unwrap(), HttpMethod::Post);
    assert_eq!(HttpMethod::parse("Put").unwrap(), HttpMethod::Put);
    assert_eq!(HttpMethod::parse("delete").unwrap(), HttpMethod::Delete);
    assert!(HttpMethod::parse("PATCH").is_err());
    assert_eq!(HttpMethod::Get.as_text(), "GET");
    assert_eq!(HttpMethod::Delete.as_text(), "DELETE");
}
