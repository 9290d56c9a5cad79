use sandpack_cdn::app_error::ServerError;
use sandpack_cdn::request::{
    decode_base64, decode_req_part, read_groups, read_version, MAX_ENCODED_LEN,
};

#[test]
fn roundtrip_decodes() {
    // "react@^18.0.0" in standard base64
    assert_eq!(
        decode_base64("cmVhY3RAXjE4LjAuMA==").unwrap(),
        "react@^18.0.0"
    );
}

#[test]
fn oversized_input_is_rejected() {
    let oversized = "A".repeat(MAX_ENCODED_LEN + 1);
    assert!(matches!(
        decode_base64(&oversized),
        Err(ServerError::InvalidQuery)
    ));
}

#[test]
fn invalid_base64_is_rejected() {
    assert!(matches!(
        decode_base64("!!!"),
        Err(ServerError::Base64DecodingError())
    ));
}

#[test]
fn every_length_is_read_back() {
    assert_eq!(decode_base64("").unwrap(), "");
    assert_eq!(decode_base64("YQ==").unwrap(), "a");
    assert_eq!(decode_base64("YWI=").unwrap(), "ab");
    assert_eq!(decode_base64("YWJj").unwrap(), "abc");
    assert_eq!(decode_base64("w6nigqw=").unwrap(), "\u{e9}\u{20ac}");
}

#[test]
fn padding_and_stray_bits_are_required_to_be_right() {
    for part in ["YQ", "YQ=", "YQ===", "YR==", "YWJ=", "Y-_j", "YW Jj", "\u{e9}"] {
        assert!(matches!(decode_base64(part), Err(ServerError::Base64DecodingError())));
    }
}

#[test]
fn bytes_that_are_no_text_are_rejected() {
    // 0xff 0xfe
    assert!(matches!(decode_base64("//4="), Err(ServerError::Base64DecodingError())));
}

#[test]
fn largest_input_is_accepted() {
    let largest = "QUFB".repeat(MAX_ENCODED_LEN / 4);
    assert_eq!(decode_base64(&largest).unwrap(), "A".repeat(MAX_ENCODED_LEN / 4 * 3));
}

#[test]
fn version_is_read() {
    // 5({"react":"18"})
    assert_eq!(
        decode_req_part("NSh7InJlYWN0IjoiMTgifSk=").unwrap(),
        (5, "{\"react\":\"18\"}".to_string())
    );
    assert_eq!(read_version("0(x)".to_string()).unwrap(), (0, "x".to_string()));
    assert_eq!(read_version("005()".to_string()).unwrap(), (5, "".to_string()));
    assert_eq!(read_version("3(a(b)c))".to_string()).unwrap(), (3, "a(b)c)".to_string()));
}

#[test]
fn version_that_is_too_late_is_rejected() {
    assert!(matches!(
        read_version("6(x)".to_string()),
        Err(ServerError::InvalidCDNVersion)
    ));
    // NihhKQ== is 6(a)
    assert!(matches!(decode_req_part("NihhKQ=="), Err(ServerError::InvalidCDNVersion)));
}

#[test]
fn version_that_is_no_number_is_rejected() {
    match read_version("99999999999999999999(x)".to_string()) {
        Err(ServerError::IntegerParse(text)) => assert_eq!(text, "99999999999999999999"),
        other => panic!("{:?}", other),
    }
    match read_version("\u{663}(x)".to_string()) {
        Err(ServerError::IntegerParse(text)) => assert_eq!(text, "\u{663}"),
        other => panic!("{:?}", other),
    }
}

#[test]
fn text_without_a_version_is_version_one() {
    for text in ["{\"a\":\"1\"}", "5", "(x)", "x5(y)", "5(x", "5(x) ", "5(a\nb)", "5\u{e9}(x)", ""] {
        assert_eq!(read_version(text.to_string()).unwrap(), (1, text.to_string()));
    }
}

#[test]
fn groups_are_taken_for_what_they_say() {
    assert_eq!(read_groups("t".to_string(), None).unwrap(), (1, "t".to_string()));
    assert_eq!(
        read_groups("t".to_string(), Some(("2".to_string(), "c".to_string()))).unwrap(),
        (2, "c".to_string())
    );
    assert!(matches!(
        read_groups("t".to_string(), Some(("6".to_string(), "c".to_string()))),
        Err(ServerError::InvalidCDNVersion)
    ));
    assert!(matches!(
        read_groups("t".to_string(), Some(("-1".to_string(), "c".to_string()))),
        Err(ServerError::IntegerParse(_))
    ));
}

#[test]
fn failures_of_decoding_pass_through() {
    let oversized = "A".repeat(MAX_ENCODED_LEN + 1);
    assert!(matches!(decode_req_part(&oversized), Err(ServerError::InvalidQuery)));
    assert!(matches!(decode_req_part("!!!"), Err(ServerError::Base64DecodingError())));
}
