use base64::Engine;
use clockin::token::{parse_i64, parse_phoenix_token, parse_user_id, Term};

fn push_map_header(out: &mut Vec<u8>, arity: u32) {
    out.push(116);
    out.extend_from_slice(&arity.to_be_bytes());
}

fn push_binary(out: &mut Vec<u8>, text: &str) {
    out.push(109);
    out.extend_from_slice(&(text.len() as u32).to_be_bytes());
    out.extend_from_slice(text.as_bytes());
}

fn push_int32(out: &mut Vec<u8>, v: i32) {
    out.push(98);
    out.extend_from_slice(&v.to_be_bytes());
}

fn payload_with_user_id_int(v: i32) -> Vec<u8> {
    let mut p = vec![131u8];
    push_map_header(&mut p, 1);
    push_binary(&mut p, "user_id");
    push_int32(&mut p, v);
    p
}

fn token_of(payload: &[u8]) -> String {
    let b64 = base64::engine::general_purpose::STANDARD.encode(payload);
    format!("SFMyNTY.{}.signature", b64)
}

#[test]
fn decodes_integer_user_id() {
    let token = token_of(&payload_with_user_id_int(42));
    assert_eq!(parse_user_id(&token), Some(42));
}

#[test]
fn decodes_negative_integer_user_id() {
    let token = token_of(&payload_with_user_id_int(-7));
    assert_eq!(parse_user_id(&token), Some(-7));
}

#[test]
fn decodes_numeric_string_user_id() {
    let mut p = vec![131u8];
    push_map_header(&mut p, 1);
    push_binary(&mut p, "user_id");
    push_binary(&mut p, "123456");
    let token = token_of(&p);
    assert_eq!(parse_user_id(&token), Some(123456));
}

#[test]
fn decodes_small_integer_user_id() {
    let mut p = vec![131u8];
    push_map_header(&mut p, 1);
    push_binary(&mut p, "user_id");
    p.push(97);
    p.push(5);
    let token = token_of(&p);
    assert_eq!(parse_user_id(&token), Some(5));
}

#[test]
fn accepts_url_safe_unpadded_segment() {
    let payload = payload_with_user_id_int(9);
    let b64 = base64::engine::general_purpose::URL_SAFE_NO_PAD.encode(&payload);
    let token = format!("SFMyNTY.{}.sig", b64);
    assert_eq!(parse_user_id(&token), Some(9));
}

#[test]
fn truncated_payload_fails() {
    let mut payload = payload_with_user_id_int(42);
    payload.pop();
    let token = token_of(&payload);
    assert_eq!(parse_user_id(&token), None);
    assert!(parse_phoenix_token(&token).is_none());
}

#[test]
fn wrong_magic_fails() {
    let payload = payload_with_user_id_int(1);
    let b64 = base64::engine::general_purpose::STANDARD.encode(&payload);
    let token = format!("SFMyNTX.{}.sig", b64);
    assert_eq!(parse_user_id(&token), None);
}

#[test]
fn wrong_segment_count_fails() {
    let payload = payload_with_user_id_int(1);
    let b64 = base64::engine::general_purpose::STANDARD.encode(&payload);
    assert_eq!(parse_user_id(&format!("SFMyNTY.{}", b64)), None);
    assert_eq!(parse_user_id(&format!("SFMyNTY.{}.a.b", b64)), None);
}

#[test]
fn bad_base64_fails() {
    assert_eq!(parse_user_id("SFMyNTY.!!!.sig"), None);
}

#[test]
fn non_map_top_level_fails() {
    let mut p = vec![131u8];
    push_binary(&mut p, "hello");
    assert!(parse_phoenix_token(&token_of(&p)).is_none());
}

#[test]
fn unknown_tag_fails() {
    let p = vec![131u8, 200u8, 1u8];
    assert!(parse_phoenix_token(&token_of(&p)).is_none());
}

#[test]
fn non_string_key_fails() {
    let mut p = vec![131u8];
    push_map_header(&mut p, 1);
    push_int32(&mut p, 3);
    push_int32(&mut p, 4);
    assert!(parse_phoenix_token(&token_of(&p)).is_none());
}

#[test]
fn missing_user_id_key_fails() {
    let mut p = vec![131u8];
    push_map_header(&mut p, 1);
    push_binary(&mut p, "other");
    push_int32(&mut p, 3);
    assert_eq!(parse_user_id(&token_of(&p)), None);
}

#[test]
fn map_valued_user_id_fails() {
    let mut p = vec![131u8];
    push_map_header(&mut p, 1);
    push_binary(&mut p, "user_id");
    push_map_header(&mut p, 0);
    assert_eq!(parse_user_id(&token_of(&p)), None);
}

#[test]
fn duplicate_key_keeps_last_value() {
    let mut p = vec![131u8];
    push_map_header(&mut p, 2);
    push_binary(&mut p, "user_id");
    push_int32(&mut p, 1);
    push_binary(&mut p, "user_id");
    push_int32(&mut p, 2);
    assert_eq!(parse_user_id(&token_of(&p)), Some(2));
}

#[test]
fn parse_token_yields_map_entries() {
    let mut p = vec![131u8];
    push_map_header(&mut p, 2);
    push_binary(&mut p, "a");
    push_int32(&mut p, 1);
    push_binary(&mut p, "b");
    push_binary(&mut p, "x");
    let m = parse_phoenix_token(&token_of(&p)).expect("decodes");
    assert_eq!(m.len(), 2);
    assert_eq!(m[0].0, "a");
    match &m[0].1 {
        Term::Int(v) => assert_eq!(*v, 1),
        _ => panic!("expected integer term"),
    }
    assert_eq!(m[1].0, "b");
    match &m[1].1 {
        Term::Text(s) => assert_eq!(s, "x"),
        _ => panic!("expected text term"),
    }
}

#[test]
fn parse_i64_accepts_signs_and_rejects_overflow() {
    assert_eq!(parse_i64(&"+5".to_string()), Some(5));
    assert_eq!(parse_i64(&"-12".to_string()), Some(-12));
    assert_eq!(
        parse_i64(&"-9223372036854775808".to_string()),
        Some(i64::MIN)
    );
    assert_eq!(
        parse_i64(&"9223372036854775807".to_string()),
        Some(i64::MAX)
    );
    assert_eq!(parse_i64(&"9223372036854775808".to_string()), None);
    assert_eq!(parse_i64(&"".to_string()), None);
    assert_eq!(parse_i64(&"12a".to_string()), None);
    assert_eq!(parse_i64(&" 12".to_string()), None);
}
