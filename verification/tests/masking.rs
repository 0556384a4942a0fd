use masklog::contains_name;
use masklog::create_masked_text;
use masklog::header_log;
use masklog::mask_token_text;
use masklog::Config;

fn h(name: &str, value: &str) -> (String, String) {
    (String::from(name), String::from(value))
}

#[test]
fn test_create_masked_text_with_some_headers_masked() {
    let config = Config { header: vec![String::from("X-Secret")] };

    let headers = vec![
        (String::from("X-Secret"), String::from("secret_value")),
        (String::from("X-Public"), String::from("public_value")),
    ];

    let result = create_masked_text(&headers, &config);

    // X-Secret should be masked, X-Public should be visible:
    assert_eq!(result, "{\"X-Secret\":\"*****\",\"X-Public\":\"public_value\"}");
}

#[test]
fn empty_collection_serializes_to_empty_object() {
    let config = Config { header: vec![String::from("X-Secret")] };
    let headers: Vec<(String, String)> = vec![];
    assert_eq!(create_masked_text(&headers, &config), "{}");
}

#[test]
fn header_log_of_empty_collection_is_fixed_message() {
    let config = Config { header: vec![String::from("X-Secret")] };
    let headers: Vec<(String, String)> = vec![];
    assert_eq!(header_log(&headers, &config), "No headers to log.");
}

#[test]
fn header_log_of_nonempty_collection_is_masked_text() {
    let config = Config { header: vec![String::from("X-Secret")] };
    let headers = vec![h("X-Secret", "secret_value"), h("X-Public", "public_value")];
    assert_eq!(header_log(&headers, &config), create_masked_text(&headers, &config));
    assert_eq!(
        header_log(&headers, &config),
        "{\"X-Secret\":\"*****\",\"X-Public\":\"public_value\"}"
    );
}

#[test]
fn repeated_name_keeps_last_value() {
    let config = Config { header: vec![] };
    let headers = vec![h("A", "1"), h("A", "2")];
    assert_eq!(create_masked_text(&headers, &config), "{\"A\":\"2\"}");
}

#[test]
fn repeated_sensitive_name_is_masked_once() {
    let config = Config { header: vec![String::from("S")] };
    let headers = vec![h("S", "1"), h("S", "2"), h("P", "x")];
    assert_eq!(create_masked_text(&headers, &config), "{\"S\":\"*****\",\"P\":\"x\"}");
}

#[test]
fn masking_is_case_sensitive() {
    let config = Config { header: vec![String::from("X-Secret")] };
    let headers = vec![h("x-secret", "v")];
    assert_eq!(create_masked_text(&headers, &config), "{\"x-secret\":\"v\"}");
}

#[test]
fn identical_inputs_give_identical_output() {
    let config = Config { header: vec![String::from("X-Secret")] };
    let headers = vec![h("X-Secret", "secret_value"), h("X-Public", "public_value")];
    let first = header_log(&headers, &config);
    let second = header_log(&headers, &config);
    assert_eq!(first, second);
}

#[test]
fn mask_token_is_five_stars() {
    assert_eq!(mask_token_text(), "*****");
}

#[test]
fn quotes_and_backslashes_are_escaped() {
    let config = Config { header: vec![] };
    let headers = vec![h("A", "x\"y\\z")];
    assert_eq!(create_masked_text(&headers, &config), "{\"A\":\"x\\\"y\\\\z\"}");
}

#[test]
fn control_characters_are_escaped() {
    let config = Config { header: vec![] };
    let headers = vec![h("A", "a\nb"), h("B", "\u{1}")];
    assert_eq!(
        create_masked_text(&headers, &config),
        "{\"A\":\"a\\nb\",\"B\":\"\\u0001\"}"
    );
}

#[test]
fn characters_outside_ascii_pass_through() {
    let config = Config { header: vec![] };
    let headers = vec![h("A", "h\u{e9}llo")];
    assert_eq!(create_masked_text(&headers, &config), "{\"A\":\"h\u{e9}llo\"}");
}

#[test]
fn contains_name_matches_exactly() {
    let list = vec![String::from("A"), String::from("B")];
    assert!(contains_name(&list, &String::from("A")));
    assert!(contains_name(&list, &String::from("B")));
    assert!(!contains_name(&list, &String::from("a")));
    assert!(!contains_name(&list, &String::from("C")));
}
