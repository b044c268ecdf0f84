//! The status decoder: schema closure, error taxonomy, numeric handling.

use fastd_exporter::decode::{decode, DecodeError};

fn minimal_doc() -> String {
    let zero = "{\"packets\":0,\"bytes\":0}";
    let stats = format!(
        "{{\"rx\":{},\"rx_reordered\":{},\"tx\":{},\"tx_dropped\":{},\"tx_error\":{}}}",
        zero, zero, zero, zero, zero
    );
    format!(
        "{{\"uptime\":1,\"interface\":\"vpn0\",\"statistics\":{},\"peers\":{{}}}}",
        stats
    )
}

fn decode_str(doc: &str) -> Result<fastd_exporter::status::FastdStatus, DecodeError> {
    decode(&doc.as_bytes().to_vec())
}

#[test]
fn minimal_document_decodes() {
    let st = decode_str(&minimal_doc()).expect("well-formed");
    assert_eq!(st.interface, b"vpn0".to_vec());
    assert_eq!(st.peers.len(), 0);
}

#[test]
fn whitespace_between_tokens_is_tolerated() {
    let spaced = minimal_doc()
        .replace(":", " : ")
        .replace(",", " ,\n")
        .replace("{", "{ ");
    let a = decode_str(&minimal_doc()).unwrap();
    let b = decode_str(&spaced).unwrap();
    assert_eq!(a, b);
}

#[test]
fn unknown_field_is_rejected() {
    let doc = minimal_doc().replace("\"uptime\":1,", "\"uptime\":1,\"surprise\":1,");
    assert_eq!(decode_str(&doc), Err(DecodeError::UnknownField));
    // Nested objects are just as closed.
    let nested = minimal_doc().replace("\"packets\":0,", "\"packets\":0,\"frames\":0,");
    assert_eq!(decode_str(&nested), Err(DecodeError::UnknownField));
}

#[test]
fn missing_field_is_rejected() {
    let doc = minimal_doc().replace("\"interface\":\"vpn0\",", "");
    assert_eq!(decode_str(&doc), Err(DecodeError::MissingField));
    assert_eq!(decode_str("{}"), Err(DecodeError::MissingField));
}

#[test]
fn duplicate_field_is_rejected() {
    let doc = minimal_doc().replace("\"uptime\":1,", "\"uptime\":1,\"uptime\":2,");
    assert_eq!(decode_str(&doc), Err(DecodeError::DuplicateField));
}

#[test]
fn duplicate_peer_key_is_rejected() {
    let peer = "{\"name\":\"a\",\"address\":\"b\",\"connection\":null}";
    let doc = minimal_doc().replace(
        "\"peers\":{}",
        &format!("\"peers\":{{\"k\":{},\"k\":{}}}", peer, peer),
    );
    assert_eq!(decode_str(&doc), Err(DecodeError::DuplicateField));
}

#[test]
fn malformed_numbers_are_rejected() {
    for bad in [
        "01",                        // superfluous leading zero
        "1.",                        // missing fraction digits
        "-1",                        // negative
        "1e3",                       // exponent form
        "99999999999999999999",      // beyond the 64-bit mantissa
        "0.00000000000000000001",    // more fraction digits than supported
    ] {
        let doc = minimal_doc().replace("\"uptime\":1,", &format!("\"uptime\":{},", bad));
        let r = decode_str(&doc);
        assert!(
            r == Err(DecodeError::BadNumber) || r == Err(DecodeError::Unexpected),
            "expected a numeric rejection for {}, got {:?}",
            bad,
            r
        );
    }
    let strict_bad = ["01", "1.", "99999999999999999999", "0.00000000000000000001"];
    for bad in strict_bad {
        let doc = minimal_doc().replace("\"uptime\":1,", &format!("\"uptime\":{},", bad));
        assert_eq!(decode_str(&doc), Err(DecodeError::BadNumber));
    }
}

#[test]
fn truncated_document_is_rejected() {
    let mut doc = minimal_doc();
    doc.truncate(doc.len() - 1);
    assert_eq!(decode_str(&doc), Err(DecodeError::Truncated));
    assert_eq!(decode_str(""), Err(DecodeError::Truncated));
}

#[test]
fn trailing_data_is_rejected() {
    let doc = format!("{} x", minimal_doc());
    assert_eq!(decode_str(&doc), Err(DecodeError::Unexpected));
}

#[test]
fn absent_connection_equals_explicit_null() {
    let with_null = minimal_doc().replace(
        "\"peers\":{}",
        "\"peers\":{\"k\":{\"name\":\"a\",\"address\":\"b\",\"connection\":null}}",
    );
    let without = minimal_doc().replace(
        "\"peers\":{}",
        "\"peers\":{\"k\":{\"name\":\"a\",\"address\":\"b\"}}",
    );
    let a = decode_str(&with_null).unwrap();
    let b = decode_str(&without).unwrap();
    assert_eq!(a, b);
    assert!(a.peers[0].1.connection.is_none());
}

#[test]
fn field_order_does_not_matter() {
    let zero = "{\"packets\":0,\"bytes\":0}";
    let stats = format!(
        "{{\"tx_error\":{},\"tx\":{},\"rx\":{},\"tx_dropped\":{},\"rx_reordered\":{}}}",
        zero, zero, zero, zero, zero
    );
    let doc = format!(
        "{{\"peers\":{{}},\"statistics\":{},\"interface\":\"vpn0\",\"uptime\":1}}",
        stats
    );
    assert_eq!(decode_str(&doc), decode_str(&minimal_doc()));
}

#[test]
fn distinct_documents_decode_to_distinct_values() {
    // Trailing fraction zeros are information, not noise: 1.5 and 1.50
    // stay apart, as do 1 and 1.0.
    let a = decode_str(&minimal_doc().replace("\"uptime\":1,", "\"uptime\":1.5,")).unwrap();
    let b = decode_str(&minimal_doc().replace("\"uptime\":1,", "\"uptime\":1.50,")).unwrap();
    let c = decode_str(&minimal_doc().replace("\"uptime\":1,", "\"uptime\":1.0,")).unwrap();
    let d = decode_str(&minimal_doc()).unwrap();
    assert_ne!(a, b);
    assert_ne!(c, d);
    assert_ne!(a, c);
}

#[test]
fn string_escapes_are_not_accepted() {
    let doc = minimal_doc().replace("\"vpn0\"", "\"v\\u0070n0\"");
    assert_eq!(decode_str(&doc), Err(DecodeError::Unexpected));
}
