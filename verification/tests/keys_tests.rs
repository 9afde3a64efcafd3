use wsntp::error::WsntpError;
use wsntp::keys::{
    alias_is_valid, config_text, decode_key, decode_key_text, default_alias_from_config,
    key_file_text, parse_key_file, resolve_alias, KeyTextError,
};

#[test]
fn invalid_alias_rejected() {
    assert!(!alias_is_valid("bad/name"));
    assert!(!alias_is_valid("bad name"));
    assert!(!alias_is_valid("bad.name"));
    assert!(!alias_is_valid(""));
}

#[test]
fn corrupt_public_key_file() {
    assert!(parse_key_file("not valid base64!!!\n", "bad", "public").is_err());
}

#[test]
fn wrong_length_key_file() {
    assert!(parse_key_file("AAAA\n", "short", "public").is_err());
}

// --- further cases ---

#[test]
fn valid_aliases_accepted() {
    assert!(alias_is_valid("test-key"));
    assert!(alias_is_valid("alice"));
    assert!(alias_is_valid("b_o_b-2"));
    assert!(!alias_is_valid("back\\slash"));
}

#[test]
fn key_file_roundtrip() {
    let key: [u8; 32] = core::array::from_fn(|i| (i * 7 + 3) as u8);
    let text = key_file_text(&key);
    assert!(text.ends_with('\n'));
    assert_eq!(text.len(), 45);
    assert_eq!(parse_key_file(&text, "k", "secret").ok().unwrap(), key);
    assert_eq!(decode_key_text(&text).ok().unwrap(), key);
}

#[test]
fn key_file_text_exact() {
    assert_eq!(key_file_text(&[0u8; 32]), "AAAAAAAAAAAAAAAAAAAAAAAAAAAAAAAAAAAAAAAAAAA=\n");
    assert_eq!(key_file_text(&[0xffu8; 32]), "//////////////////////////////////////////8=\n");
}

#[test]
fn key_text_errors() {
    assert_eq!(decode_key_text("not valid base64!!!\n"), Err(KeyTextError::NotBase64));
    assert_eq!(decode_key_text("AAAA\n"), Err(KeyTextError::WrongLength));
    assert_eq!(
        decode_key_text("  AAAAAAAAAAAAAAAAAAAAAAAAAAAAAAAAAAAAAAAAAAA=\r\n"),
        Ok([0u8; 32])
    );
}

#[test]
fn key_file_error_texts() {
    match parse_key_file("not valid base64!!!\n", "bad", "public") {
        Err(WsntpError::Cli(m)) => assert_eq!(m, "corrupt public key file for 'bad'"),
        _ => panic!("expected a Cli error"),
    }
    match parse_key_file("AAAA\n", "short", "secret") {
        Err(WsntpError::Cli(m)) => assert_eq!(m, "secret key for 'short' has wrong length"),
        _ => panic!("expected a Cli error"),
    }
}

#[test]
fn decode_key_error_texts() {
    match decode_key("%%%", "public key") {
        Err(WsntpError::Cli(m)) => assert_eq!(m, "invalid base64 public key"),
        _ => panic!("expected a Cli error"),
    }
    match decode_key("AAAA", "public key") {
        Err(WsntpError::Cli(m)) => assert_eq!(m, "public key must be 32 bytes"),
        _ => panic!("expected a Cli error"),
    }
    assert_eq!(
        decode_key("AAAAAAAAAAAAAAAAAAAAAAAAAAAAAAAAAAAAAAAAAAA=", "public key").ok().unwrap(),
        [0u8; 32]
    );
}

#[test]
fn config_roundtrip() {
    let text = config_text("primary");
    assert_eq!(text, "default_key = \"primary\"\n");
    assert_eq!(default_alias_from_config(&text).ok().unwrap(), Some("primary".to_string()));
}

#[test]
fn config_without_default() {
    assert_eq!(default_alias_from_config("").ok().unwrap(), None);
    assert_eq!(default_alias_from_config("other = 1\n").ok().unwrap(), None);
    assert_eq!(default_alias_from_config("default_key = 5\n").ok().unwrap(), None);
}

#[test]
fn malformed_config_rejected() {
    match default_alias_from_config("default_key = \"unterminated\n") {
        Err(WsntpError::Cli(m)) => assert!(m.starts_with("malformed config.toml: ")),
        _ => panic!("expected a Cli error"),
    }
}

#[test]
fn resolve_alias_prefers_given() {
    assert_eq!(resolve_alias(Some("a"), Some("b".to_string())).ok().unwrap(), "a");
    assert_eq!(resolve_alias(None, Some("b".to_string())).ok().unwrap(), "b");
    match resolve_alias(None, None) {
        Err(WsntpError::Cli(m)) => assert_eq!(m, "no key specified and no default key set"),
        _ => panic!("expected a Cli error"),
    }
}

#[test]
fn error_messages() {
    assert_eq!(WsntpError::Cli("plain".to_string()).message(), "plain");
    assert_eq!(WsntpError::Crypto("bad".to_string()).message(), "crypto error: bad");
    assert_eq!(
        WsntpError::KeyNotFound("public key 'x' not found".to_string()).message(),
        "key not found: public key 'x' not found"
    );
}

#[test]
fn malformed_config_text_prefix() {
    match default_alias_from_config("= = =") {
        Err(WsntpError::Cli(m)) => {
            assert!(m.starts_with("malformed config.toml: "));
            assert!(m.len() > "malformed config.toml: ".len());
        }
        _ => panic!("expected a Cli error"),
    }
}

#[test]
fn key_text_trims_unicode_white_space() {
    assert_eq!(
        decode_key_text("\u{3000}\u{85}AAAAAAAAAAAAAAAAAAAAAAAAAAAAAAAAAAAAAAAAAAA=\u{2028}\t"),
        Ok([0u8; 32])
    );
    assert_eq!(decode_key_text(" \u{200b}AAAA"), Err(KeyTextError::NotBase64));
}

#[test]
fn malformed_config_text_is_the_parser_message() {
    let content = "default_key = \"unterminated\n";
    let detail = content.parse::<toml::Value>().unwrap_err().to_string();
    match default_alias_from_config(content) {
        Err(WsntpError::Cli(m)) => assert_eq!(m, format!("malformed config.toml: {}", detail)),
        _ => panic!("expected a Cli error"),
    }
}
