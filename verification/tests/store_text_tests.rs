use wsntp::error::WsntpError;
use wsntp::keys::{
    alias_of_file, alias_taken, aliases_from_file_names, key_file_names, key_not_found,
    text_in_order, validate_alias,
};
use wsntp::report::{list_lines, message_text};

#[test]
fn validate_alias_texts() {
    assert!(validate_alias("alice").is_ok());
    match validate_alias("bad/name") {
        Err(WsntpError::Cli(m)) => assert_eq!(
            m,
            "invalid key alias: 'bad/name' (must not contain ['/', '\\\\', '.', ' '])"
        ),
        _ => panic!("expected a Cli error"),
    }
    // The same text the standard Debug formatting of the forbidden characters gives.
    let forbidden: &[char] = &['/', '\\', '.', ' '];
    match validate_alias("") {
        Err(WsntpError::Cli(m)) => {
            assert_eq!(m, format!("invalid key alias: '' (must not contain {:?})", forbidden))
        }
        _ => panic!("expected a Cli error"),
    }
}

#[test]
fn file_names_of_a_key_pair() {
    let n = key_file_names("test-key");
    assert_eq!(n.public, "test-key.pub");
    assert_eq!(n.secret, "test-key.secret");
    assert_eq!(n.public_tmp, ".test-key.pub.tmp");
    assert_eq!(n.secret_tmp, ".test-key.secret.tmp");
    assert_eq!(alias_of_file(&n.public), Some("test-key".to_string()));
    assert_eq!(alias_of_file(&n.secret), None);
    assert_eq!(alias_of_file(&n.public_tmp), None);
}

#[test]
fn store_error_texts() {
    match alias_taken("dup") {
        WsntpError::Cli(m) => assert_eq!(m, "key alias 'dup' already exists"),
        _ => panic!("expected a Cli error"),
    }
    match key_not_found("public", "nobody") {
        WsntpError::KeyNotFound(m) => assert_eq!(m, "public key 'nobody' not found"),
        _ => panic!("expected a KeyNotFound error"),
    }
    match key_not_found("secret", "nobody") {
        WsntpError::KeyNotFound(m) => assert_eq!(m, "secret key 'nobody' not found"),
        _ => panic!("expected a KeyNotFound error"),
    }
}

#[test]
fn aliases_listed_sorted() {
    let names: Vec<String> = ["bob.pub", "bob.secret", "alice.secret", ".carol.pub.tmp", "alice.pub", "zed.pub", "ärger.pub", "Zulu.pub", "notes.txt"]
        .iter()
        .map(|s| s.to_string())
        .collect();
    let aliases = aliases_from_file_names(&names);
    let mut expected: Vec<String> =
        ["alice", "bob", "zed", "ärger", "Zulu"].iter().map(|s| s.to_string()).collect();
    expected.sort();
    assert_eq!(aliases, expected);
    assert_eq!(aliases, vec!["Zulu", "alice", "bob", "zed", "ärger"]);
}

#[test]
fn aliases_of_empty_directory() {
    assert!(aliases_from_file_names(&Vec::new()).is_empty());
    assert!(aliases_from_file_names(&vec!["a.secret".to_string()]).is_empty());
}

#[test]
fn text_order_matches_string_order() {
    let words = ["", "a", "ab", "b", "B", "ä", "a\u{10000}", "a\u{ffff}", "abc", "abd"];
    for x in words {
        for y in words {
            assert_eq!(text_in_order(x, y), x <= y, "{x:?} {y:?}");
        }
    }
}

#[test]
fn listing_lines() {
    assert_eq!(list_lines(&Vec::new(), None), vec!["No keys stored."]);
    let aliases = vec!["alice".to_string(), "bob".to_string()];
    assert_eq!(list_lines(&aliases, Some("bob".to_string())), vec!["  alice", "* bob"]);
    assert_eq!(list_lines(&aliases, None), vec!["  alice", "  bob"]);
}

#[test]
fn message_shown_as_text_or_hex() {
    assert_eq!(message_text(b"hello world"), "hello world");
    assert_eq!(message_text("grüß".as_bytes()), "grüß");
    assert_eq!(message_text(b""), "");
    assert_eq!(message_text(&[0xff, 0x00, 0x1a]), "(non-UTF-8, hex) ff001a");
    assert_eq!(message_text(&[0xed, 0xa0, 0x80]), "(non-UTF-8, hex) eda080");
}
