use base64::prelude::{Engine, BASE64_URL_SAFE_NO_PAD};
use season_centralizer::models::SourceRef;
use season_centralizer::refs::{decode_refs, encode_refs, RefsError};

fn reference(source: &str, id: &str) -> SourceRef {
    SourceRef {
        source: source.to_string(),
        id: id.to_string(),
    }
}

fn identifier(payload: &str) -> String {
    format!("central:{}", BASE64_URL_SAFE_NO_PAD.encode(payload))
}

#[test]
fn identifier_is_base64_of_the_reference_list() {
    let refs = vec![reference("mal", "1"), reference("a\"b\\\n", "\u{e9}\u{1}")];
    let expected = identifier(
        "[{\"source\":\"mal\",\"id\":\"1\"},{\"source\":\"a\\\"b\\\\\\n\",\"id\":\"\u{e9}\\u0001\"}]",
    );
    assert_eq!(encode_refs(&refs), expected);
    assert_eq!(encode_refs(&[]), "central:W10");
}

#[test]
fn decoding_gives_back_what_was_encoded() {
    let refs = vec![
        reference("source-1", "16498"),
        reference("", ""),
        reference("\"},{\"", "]\\"),
        reference("\u{30a2}\u{1f3ac}", "\t\r\n"),
    ];
    assert_eq!(decode_refs(&encode_refs(&refs)).unwrap(), refs);
}

#[test]
fn decoding_accepts_every_notation_of_a_reference() {
    let loose = identifier(
        " [ { \"extra\" : [1, {\"id\": 2.5e3}] , \"\\u0069d\" : \"7\" ,\n \"source\":\"a\" } , [ \"b\" , \"8\" ] ] \t",
    );
    assert_eq!(
        decode_refs(&loose).unwrap(),
        vec![reference("a", "7"), reference("b", "8")]
    );
    let huge = identifier("[{\"x\":1e999,\"x\":null,\"source\":\"a\",\"id\":\"1\"}]");
    assert_eq!(decode_refs(&huge).unwrap(), vec![reference("a", "1")]);
}

#[test]
fn decoding_reports_a_missing_prefix() {
    assert!(matches!(decode_refs("W10"), Err(RefsError::Prefix)));
    assert!(matches!(decode_refs("centra"), Err(RefsError::Prefix)));
}

#[test]
fn decoding_reports_a_broken_token() {
    assert!(matches!(decode_refs("central:*"), Err(RefsError::Token(_))));
    assert!(matches!(decode_refs("central:W10="), Err(RefsError::Token(_))));
}

#[test]
fn decoding_reports_a_payload_that_is_no_reference_list() {
    for payload in [
        "",
        "{}",
        "[",
        "[{}]",
        "[{\"source\":\"a\"}]",
        "[{\"source\":\"a\",\"id\":1}]",
        "[{\"source\":\"a\",\"source\":\"b\",\"id\":\"1\"}]",
        "[{\"source\":\"a\",\"id\":\"1\",}]",
        "[{\"source\":\"a\",\"id\":\"1\"},]",
        "[{\"source\":\"a\" \"id\":\"1\"}]",
        "[{\"source\":\"a\",\"id\":\"1\"}] x",
        "[[\"a\"]]",
        "[[\"a\",\"1\",\"2\"]]",
        "[null]",
        "[,{\"source\":\"a\",\"id\":\"1\"}]",
    ] {
        assert!(matches!(decode_refs(&identifier(payload)), Err(RefsError::Payload(_))));
    }
}

#[test]
fn decoding_reports_an_empty_reference_list() {
    assert!(matches!(decode_refs("central:W10"), Err(RefsError::Empty)));
    assert!(matches!(decode_refs(&identifier(" [ ] ")), Err(RefsError::Empty)));
}

#[test]
fn decoding_refuses_every_text_that_no_bytes_are_written_as() {
    let written = encode_refs(&[reference("a", "1"), reference("b", "~~~???>>>")]);
    assert!(written["central:".len()..]
        .chars()
        .all(|c| c.is_ascii_alphanumeric() || c == '-' || c == '_'));
    for token in ["=", "W10=", "W1+", "W1/", "W 10", "W11", "W", "W10é", "W10\n"] {
        let error = decode_refs(&format!("central:{token}")).unwrap_err();
        assert!(matches!(error, RefsError::Token(_)), "{token:?}");
    }
}
