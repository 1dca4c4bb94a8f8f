use order_ingest::codec::{decode, decode_entries, encode, DecodeError};
use order_ingest::order::{
    build_cancel_order, build_create_order, MessageFromApi, OptionType, OrderType, ValidationError,
};

fn sample_create() -> MessageFromApi {
    build_create_order(
        "u1".to_string(),
        "m1".to_string(),
        "Yes".to_string(),
        "Buy".to_string(),
        1050,
        3,
    )
    .unwrap()
}

#[test]
fn round_trip_create() {
    let cmd = sample_create();
    let bytes = encode(&cmd);
    let back = decode(&bytes).unwrap();
    assert_eq!(back, cmd);
}

#[test]
fn round_trip_cancel() {
    let cmd = build_cancel_order("user-9".to_string(), "order-17".to_string()).unwrap();
    let bytes = encode(&cmd);
    let back = decode(&bytes).unwrap();
    assert_eq!(back, cmd);
}

#[test]
fn round_trip_non_ascii() {
    let cmd = build_cancel_order("héllo ☃".to_string(), "注文-1".to_string()).unwrap();
    let bytes = encode(&cmd);
    let back = decode(&bytes).unwrap();
    assert_eq!(back, cmd);
}

#[test]
fn encode_exact_bytes_cancel() {
    let cmd = build_cancel_order("a".to_string(), "b".to_string()).unwrap();
    let bytes = encode(&cmd);
    let expected: Vec<u8> = vec![
        2, // cancel tag
        1, 0, 0, 0, 0, 0, 0, 0, // user_id length
        97, 0, 0, 0, // 'a'
        1, 0, 0, 0, 0, 0, 0, 0, // order_id length
        98, 0, 0, 0, // 'b'
    ];
    assert_eq!(bytes, expected);
}

#[test]
fn decode_empty_is_malformed() {
    assert_eq!(decode(&Vec::new()), Err(DecodeError::Malformed));
}

#[test]
fn decode_unknown_tag() {
    assert_eq!(decode(&vec![7u8, 1, 2, 3]), Err(DecodeError::UnknownTag));
}

#[test]
fn decode_truncated_is_malformed() {
    let cmd = sample_create();
    let mut bytes = encode(&cmd);
    bytes.pop();
    assert_eq!(decode(&bytes), Err(DecodeError::Malformed));
}

#[test]
fn decode_trailing_byte_is_malformed() {
    let cmd = sample_create();
    let mut bytes = encode(&cmd);
    bytes.push(0);
    assert_eq!(decode(&bytes), Err(DecodeError::Malformed));
}

#[test]
fn decode_bad_scalar_is_malformed() {
    // a cancel frame whose single character is a surrogate code point
    let mut bytes: Vec<u8> = vec![2, 1, 0, 0, 0, 0, 0, 0, 0];
    bytes.extend_from_slice(&0xD800u32.to_le_bytes());
    bytes.extend_from_slice(&[1, 0, 0, 0, 0, 0, 0, 0, 98, 0, 0, 0]);
    assert_eq!(decode(&bytes), Err(DecodeError::Malformed));
}

#[test]
fn batch_decode_keeps_going_past_bad_entries() {
    let good = encode(&sample_create());
    let entries = vec![
        ("1-0".to_string(), good.clone()),
        ("1-1".to_string(), vec![9u8]),
        ("1-2".to_string(), good.clone()),
    ];
    let out = decode_entries(&entries);
    assert_eq!(out.len(), 3);
    assert_eq!(out[0].0, "1-0");
    assert_eq!(out[0].1, Ok(sample_create()));
    assert_eq!(out[1].1, Err(DecodeError::UnknownTag));
    assert_eq!(out[2].1, Ok(sample_create()));
}

#[test]
fn build_rejects_empty_user() {
    let r = build_create_order(
        String::new(),
        "m1".to_string(),
        "Yes".to_string(),
        "Buy".to_string(),
        1050,
        3,
    );
    assert_eq!(r, Err(ValidationError::InvalidParameters));
}

#[test]
fn build_rejects_zero_price() {
    let r = build_create_order(
        "u1".to_string(),
        "m1".to_string(),
        "Yes".to_string(),
        "Buy".to_string(),
        0,
        3,
    );
    assert_eq!(r, Err(ValidationError::InvalidParameters));
}

#[test]
fn build_rejects_zero_quantity() {
    let r = build_create_order(
        "u1".to_string(),
        "m1".to_string(),
        "Yes".to_string(),
        "Buy".to_string(),
        1050,
        0,
    );
    assert_eq!(r, Err(ValidationError::InvalidParameters));
}

#[test]
fn build_rejects_unknown_option() {
    let r = build_create_order(
        "u1".to_string(),
        "m1".to_string(),
        "Maybe".to_string(),
        "Buy".to_string(),
        1050,
        3,
    );
    assert_eq!(r, Err(ValidationError::InvalidOption));
}

#[test]
fn build_rejects_unknown_order_type() {
    let r = build_create_order(
        "u1".to_string(),
        "m1".to_string(),
        "No".to_string(),
        "Hold".to_string(),
        1050,
        3,
    );
    assert_eq!(r, Err(ValidationError::InvalidOrderType));
}

#[test]
fn build_parses_closed_sets() {
    let cmd = build_create_order(
        "u1".to_string(),
        "m1".to_string(),
        "No".to_string(),
        "Sell".to_string(),
        25,
        1,
    )
    .unwrap();
    match cmd {
        MessageFromApi::CreateOrder { option, order_type, price, quantity, .. } => {
            assert!(matches!(option, OptionType::No));
            assert!(matches!(order_type, OrderType::Sell));
            assert_eq!(price, 25);
            assert_eq!(quantity, 1);
        }
        _ => panic!("expected a create command"),
    }
}

#[test]
fn build_cancel_rejects_empty_order_id() {
    let r = build_cancel_order("u1".to_string(), String::new());
    assert_eq!(r, Err(ValidationError::InvalidParameters));
}
