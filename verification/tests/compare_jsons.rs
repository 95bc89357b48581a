use assert_json_diff::assert_json_matches_no_panic;
use assert_json_diff::{CompareMode, Config};

#[test]
fn compare_jsons() {
    let a: serde_json::Value = serde_json::from_str(
        "{\
         \"data\": {\
             \"users\": [\
                 {\
                     \"country\": {\
                         \"name\": \"Sweden\",\
                         \"cities\": [\
                             {\"id\": 1, \"name\": \"Stockholm\"},\
                             {\"id\": 2, \"name\": \"Gothenburg\"}\
                         ]\
                     },\
                     \"id\": 1\
                 },\
                 {\
                     \"id\": 2,\
                     \"country\": {\
                         \"name\": \"Denmark\",\
                         \"cities\": [\
                             {\"id\": 3, \"name\": \"Copenhagen\"},\
                             {\"id\": 4, \"name\": \"Aarhus\"}\
                         ]\
                     }\
                 }\
             ]\
         }\
     }",
    )
    .unwrap();

    let b: serde_json::Value = serde_json::from_str(
        "{\
         \"data\": {\
             \"users\": [\
                 {\
                     \"country\": {\
                         \"cities\": [\
                             {\"id\": 1, \"name\": \"Stockholm\"},\
                             {\"id\": 2, \"name\": \"Gothenburg\"}\
                         ],\
                         \"name\": \"Sweden\"\
                     },\
                     \"id\": 1\
                 },\
                 {\
                     \"id\": 2,\
                     \"country\": {\
                         \"cities\": [\
                             {\"name\": \"Copenhagen\", \"id\": 3},\
                             {\"name\": \"Aarhus\", \"id\": 4}\
                         ],\
                         \"name\": \"Denmark\"\
                     }\
                 }\
             ]\
         }\
     }",
    )
    .unwrap();

    let result = assert_json_matches_no_panic(&a, &b, Config::new(CompareMode::Strict));
    match result {
        Ok(_) => println!("Success!"),
        Err(e) => println!("Error: {}", e),
    }
}
