use red_black_knights::share_code::{
    check_payload_version, check_share_version, decode_share_envelope, encode_share_envelope,
    parse_u32, trim_text, ShareCodeError, CURRENT_SHARE_VERSION, SHARE_CODE_PREFIX,
};

#[test]
fn envelope_round_trips_payload() {
    let payload = br#"{"version":1,"target_index":42}"#;
    let code = encode_share_envelope(CURRENT_SHARE_VERSION, payload).expect("encodes");
    assert!(code.starts_with("rbk:1:"));
    assert!(code.starts_with(SHARE_CODE_PREFIX));
    let (version, bytes) = decode_share_envelope(&code).expect("decodes");
    assert_eq!(version, 1);
    assert_eq!(bytes, payload.to_vec());
}

#[test]
fn envelope_payload_is_standard_base64() {
    let code = encode_share_envelope(1, b"{}").unwrap();
    assert_eq!(code, "rbk:1:e30=");
    let code = encode_share_envelope(1, b"").unwrap();
    assert_eq!(code, "rbk:1:");
    assert_eq!(decode_share_envelope(&code), Ok((1, Vec::new())));
}

#[test]
fn envelope_text_follows_the_base64_groups() {
    assert_eq!(encode_share_envelope(1, b"f").unwrap(), "rbk:1:Zg==");
    assert_eq!(encode_share_envelope(1, b"fo").unwrap(), "rbk:1:Zm8=");
    assert_eq!(encode_share_envelope(1, b"foo").unwrap(), "rbk:1:Zm9v");
    assert_eq!(encode_share_envelope(1, b"foob").unwrap(), "rbk:1:Zm9vYg==");
    assert_eq!(encode_share_envelope(1, &[0xfb, 0xff, 0x3e]).unwrap(), "rbk:1:+/8+");
}

#[test]
fn decoder_refuses_non_canonical_base64() {
    // Trailing bits set in the last symbol, missing padding, and padding inside the text.
    for code in ["rbk:1:e31=", "rbk:1:e30", "rbk:1:Zg", "rbk:1:Zg=", "rbk:1:Zg==Zg=="] {
        assert!(
            matches!(decode_share_envelope(code), Err(ShareCodeError::InvalidBase64(_))),
            "{code}"
        );
    }
    assert_eq!(decode_share_envelope("rbk:1:Zm9vYg=="), Ok((1, b"foob".to_vec())));
}

#[test]
fn encoder_refuses_other_versions() {
    assert_eq!(
        encode_share_envelope(2, b"{}"),
        Err(ShareCodeError::VersionMismatch(2))
    );
    assert_eq!(
        encode_share_envelope(0, b"{}"),
        Err(ShareCodeError::VersionMismatch(0))
    );
}

#[test]
fn decoder_trims_surrounding_white_space() {
    assert_eq!(
        decode_share_envelope("  \n rbk:1:e30=  \t"),
        Ok((1, b"{}".to_vec()))
    );
    assert_eq!(decode_share_envelope("rbk:1:  e30=  "), Ok((1, b"{}".to_vec())));
    assert_eq!(decode_share_envelope("rbk:+1:e30="), Ok((1, b"{}".to_vec())));
}

#[test]
fn decoder_reports_each_failure() {
    assert_eq!(decode_share_envelope("hello"), Err(ShareCodeError::MissingPrefix));
    assert_eq!(decode_share_envelope(""), Err(ShareCodeError::MissingPrefix));
    assert_eq!(decode_share_envelope("RBK:1:e30="), Err(ShareCodeError::MissingPrefix));
    assert_eq!(decode_share_envelope("rbk:1"), Err(ShareCodeError::MissingPayload));
    assert_eq!(
        decode_share_envelope("rbk:x:e30="),
        Err(ShareCodeError::InvalidVersion("x".to_string()))
    );
    assert_eq!(
        decode_share_envelope("rbk::e30="),
        Err(ShareCodeError::InvalidVersion(String::new()))
    );
    assert_eq!(
        decode_share_envelope("rbk:99999999999:e30="),
        Err(ShareCodeError::InvalidVersion("99999999999".to_string()))
    );
    assert!(matches!(
        decode_share_envelope("rbk:1:!!!"),
        Err(ShareCodeError::InvalidBase64(_))
    ));
    assert_eq!(decode_share_envelope("rbk:2:e30="), Err(ShareCodeError::NewerVersion(2)));
    assert_eq!(
        decode_share_envelope("rbk:0:e30="),
        Err(ShareCodeError::UnsupportedVersion(0))
    );
}

#[test]
fn base64_is_checked_before_the_version() {
    assert!(matches!(
        decode_share_envelope("rbk:7:@@"),
        Err(ShareCodeError::InvalidBase64(_))
    ));
}

#[test]
fn version_checks() {
    assert_eq!(check_share_version(1), Ok(()));
    assert_eq!(check_share_version(5), Err(ShareCodeError::NewerVersion(5)));
    assert_eq!(check_share_version(0), Err(ShareCodeError::UnsupportedVersion(0)));
    assert_eq!(check_payload_version(1), Ok(()));
    assert_eq!(
        check_payload_version(3),
        Err(ShareCodeError::PayloadVersionMismatch(3))
    );
}

#[test]
fn trim_matches_str_trim() {
    for s in ["", "   ", " a ", "a", "\t\nab c\r\n", "x  ", "  y"] {
        assert_eq!(trim_text(s), s.trim());
    }
}

#[test]
fn parse_u32_matches_str_parse() {
    for s in ["0", "42", "+7", "4294967295", "4294967296", "", "+", "-1", "1a", " 1", "007"] {
        assert_eq!(parse_u32(s), s.parse::<u32>().ok(), "input {s:?}");
    }
}

#[test]
fn rejects_unknown_future_version() {
    assert_eq!(decode_share_envelope("rbk:99:AAAA"), Err(ShareCodeError::NewerVersion(99)));
}
