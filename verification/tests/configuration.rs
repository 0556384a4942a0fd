use masklog::header_log;
use masklog::parse_config;
use masklog::Config;
use masklog::ConfigFault;

#[test]
fn config_round_trip() {
    let bytes: Vec<u8> = b"{\"header\": [\"A\",\"B\"]}".to_vec();
    let config = parse_config(&bytes).unwrap();
    assert_eq!(config.header, vec![String::from("A"), String::from("B")]);
}

#[test]
fn field_spellings_agree() {
    // The recognized field is addressable under one spelling that is its own
    // alias; both readings must give the same sensitive names.
    let primary: Vec<u8> = b"{\"header\":[\"A\",\"B\"]}".to_vec();
    let aliased: Vec<u8> = b"{ \"header\" : [\"A\",\"B\"] }".to_vec();
    let first = parse_config(&primary).unwrap();
    let second = parse_config(&aliased).unwrap();
    assert_eq!(first.header, second.header);
}

#[test]
fn malformed_config_keeps_raw_bytes() {
    let bytes: Vec<u8> = b"not an object".to_vec();
    let err = parse_config(&bytes).unwrap_err();
    assert_eq!(err.raw, bytes);
    assert_eq!(err.raw_text(), "not an object");
}

#[test]
fn array_config_is_rejected() {
    let bytes: Vec<u8> = b"[1,2]".to_vec();
    let err = parse_config(&bytes).unwrap_err();
    assert_eq!(err.raw, bytes);
}

#[test]
fn missing_field_is_rejected() {
    let bytes: Vec<u8> = b"{\"other\": 1}".to_vec();
    assert!(parse_config(&bytes).is_err());
}

#[test]
fn empty_object_is_rejected() {
    let bytes: Vec<u8> = b"{}".to_vec();
    assert!(parse_config(&bytes).is_err());
}

#[test]
fn duplicate_field_is_rejected() {
    let bytes: Vec<u8> = b"{\"header\":[],\"header\":[]}".to_vec();
    assert!(parse_config(&bytes).is_err());
}

#[test]
fn trailing_text_is_rejected() {
    let bytes: Vec<u8> = b"{\"header\":[]}x".to_vec();
    assert!(parse_config(&bytes).is_err());
}

#[test]
fn empty_array_is_accepted() {
    let bytes: Vec<u8> = b"{\"header\":[]}".to_vec();
    let config = parse_config(&bytes).unwrap();
    assert!(config.header.is_empty());
    let headers = vec![(String::from("A"), String::from("1"))];
    assert_eq!(header_log(&headers, &config), "{\"A\":\"1\"}");
}

#[test]
fn unknown_fields_are_ignored() {
    let bytes: Vec<u8> =
        b"{\"before\":{\"x\":[1,2,{\"y\":\"}\"}]},\"header\":[\"H\"],\"num\":-1.5e3,\"t\":true}"
            .to_vec();
    let config = parse_config(&bytes).unwrap();
    assert_eq!(config.header, vec![String::from("H")]);
}

#[test]
fn escapes_in_config_names() {
    let bytes: Vec<u8> = b"{\"header\":[\"A\\\"B\",\"C\\\\D\"]}".to_vec();
    let config = parse_config(&bytes).unwrap();
    assert_eq!(config.header, vec![String::from("A\"B"), String::from("C\\D")]);
}

#[test]
fn hex_escapes_decode_in_names() {
    let bytes: Vec<u8> = b"{\"header\":[\"\\u0041\"]}".to_vec();
    let config = parse_config(&bytes).unwrap();
    assert_eq!(config.header, vec![String::from("A")]);
}

#[test]
fn field_keys_match_after_decoding() {
    let bytes: Vec<u8> = b"{\"\\u0068eader\":[\"A\"]}".to_vec();
    let config = parse_config(&bytes).unwrap();
    assert_eq!(config.header, vec![String::from("A")]);
}

#[test]
fn surrogate_pairs_decode_in_names() {
    let bytes: Vec<u8> = b"{\"header\":[\"\\ud83d\\ude00\"]}".to_vec();
    let config = parse_config(&bytes).unwrap();
    assert_eq!(config.header, vec![String::from("\u{1f600}")]);
}

#[test]
fn lone_surrogates_in_names_are_rejected() {
    let high: Vec<u8> = b"{\"header\":[\"\\ud800\"]}".to_vec();
    assert!(parse_config(&high).is_err());
    let low: Vec<u8> = b"{\"header\":[\"\\udc00\"]}".to_vec();
    assert!(parse_config(&low).is_err());
}

#[test]
fn multi_byte_names_decode() {
    let bytes: Vec<u8> = b"{\"header\":[\"\xc3\xa9\"]}".to_vec();
    let config = parse_config(&bytes).unwrap();
    assert_eq!(config.header, vec![String::from("\u{e9}")]);
}

#[test]
fn overlong_sequences_in_names_are_rejected() {
    let bytes: Vec<u8> = b"{\"header\":[\"\xc0\xaf\"]}".to_vec();
    assert!(parse_config(&bytes).is_err());
}

#[test]
fn raw_control_bytes_in_names_are_rejected() {
    let bytes: Vec<u8> = b"{\"header\":[\"a\tb\"]}".to_vec();
    assert!(parse_config(&bytes).is_err());
}

#[test]
fn unbalanced_ignored_values_are_rejected() {
    let bytes: Vec<u8> = b"{\"x\":[},\"header\":[]}".to_vec();
    assert!(parse_config(&bytes).is_err());
}

#[test]
fn run_on_literals_in_ignored_values_are_rejected() {
    let bytes: Vec<u8> = b"{\"x\":truefalse9,\"header\":[]}".to_vec();
    assert!(parse_config(&bytes).is_err());
}

#[test]
fn leading_zeros_in_ignored_numbers_are_rejected() {
    let bytes: Vec<u8> = b"{\"x\":01,\"header\":[]}".to_vec();
    assert!(parse_config(&bytes).is_err());
}

#[test]
fn trailing_commas_in_ignored_values_are_rejected() {
    let bytes: Vec<u8> = b"{\"header\":[],\"x\":[1,]}".to_vec();
    assert!(parse_config(&bytes).is_err());
}

#[test]
fn signed_exponents_in_ignored_numbers_are_accepted() {
    let bytes: Vec<u8> = b"{\"x\":-1.5e+10,\"y\":-0,\"header\":[]}".to_vec();
    assert!(parse_config(&bytes).is_ok());
}

#[test]
fn lone_surrogates_in_ignored_strings_are_accepted() {
    let bytes: Vec<u8> = b"{\"x\":\"\\ud800\",\"header\":[\"H\"]}".to_vec();
    let config = parse_config(&bytes).unwrap();
    assert_eq!(config.header, vec![String::from("H")]);
}

#[test]
fn arbitrary_bytes_in_ignored_strings_are_accepted() {
    let mut bytes: Vec<u8> = b"{\"x\":\"".to_vec();
    bytes.push(0xff);
    bytes.extend_from_slice(b"\",\"header\":[]}");
    assert!(parse_config(&bytes).is_ok());
}

#[test]
fn error_kinds_name_the_fault() {
    let not_object: Vec<u8> = b"[1,2]".to_vec();
    assert_eq!(parse_config(&not_object).unwrap_err().kind, ConfigFault::NotAnObject);
    let missing: Vec<u8> = b"{\"other\":1}".to_vec();
    assert_eq!(parse_config(&missing).unwrap_err().kind, ConfigFault::MissingField);
    let duplicate: Vec<u8> = b"{\"header\":[],\"header\":[]}".to_vec();
    assert_eq!(parse_config(&duplicate).unwrap_err().kind, ConfigFault::MalformedMember);
    let trailing: Vec<u8> = b"{\"header\":[]}x".to_vec();
    let err = parse_config(&trailing).unwrap_err();
    assert_eq!(err.kind, ConfigFault::TrailingText);
    assert_eq!(err.detail, "text after the configuration object");
}

#[test]
fn raw_text_decodes_multi_byte_sequences() {
    let mut bytes: Vec<u8> = b"not an object ".to_vec();
    bytes.extend_from_slice(b"\xc3\xa9");
    let err = parse_config(&bytes).unwrap_err();
    assert_eq!(err.raw_text(), "not an object \u{e9}");
}

#[test]
fn raw_text_replaces_maximal_ill_formed_subparts() {
    let bytes: Vec<u8> = vec![0x7b, 0xe2, 0x82];
    let err = parse_config(&bytes).unwrap_err();
    assert_eq!(err.raw_text(), "{\u{fffd}");
}

#[test]
fn bytes_outside_ascii_in_names_are_rejected() {
    let mut bytes: Vec<u8> = b"{\"header\":[\"A".to_vec();
    bytes.push(0xff);
    bytes.extend_from_slice(b"\"]}");
    let err = parse_config(&bytes).unwrap_err();
    assert_eq!(err.raw, bytes);
    assert!(err.raw_text().contains('\u{fffd}'));
}

#[test]
fn whitespace_is_tolerated() {
    let bytes: Vec<u8> = b" \t\r\n{ \"header\" : [ \"A\" ] } ".to_vec();
    let config = parse_config(&bytes).unwrap();
    assert_eq!(config.header, vec![String::from("A")]);
}

#[test]
fn parsed_config_drives_masking() {
    let bytes: Vec<u8> = b"{\"header\":[\"X-Secret\"]}".to_vec();
    let config = parse_config(&bytes).unwrap();
    let headers = vec![
        (String::from("X-Secret"), String::from("secret_value")),
        (String::from("X-Public"), String::from("public_value")),
    ];
    assert_eq!(
        header_log(&headers, &config),
        "{\"X-Secret\":\"*****\",\"X-Public\":\"public_value\"}"
    );
}

#[test]
fn parsed_config_can_be_rebuilt() {
    let bytes: Vec<u8> = b"{\"header\":[\"A\"]}".to_vec();
    let parsed = parse_config(&bytes).unwrap();
    let rebuilt = Config { header: parsed.header.clone() };
    assert_eq!(rebuilt.header, parsed.header);
}
