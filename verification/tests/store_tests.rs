use order_ingest::codec::encode;
use order_ingest::order::build_create_order;
use order_ingest::store::{LogStore, SubmitError};

fn stream() -> String {
    "order_stream".to_string()
}

fn group() -> String {
    "matchers".to_string()
}

#[test]
fn scenario_submit_and_reject() {
    let mut store = LogStore::new();
    let id = store
        .submit_order(
            &stream(),
            "u1".to_string(),
            "m1".to_string(),
            "Yes".to_string(),
            "Buy".to_string(),
            1050, // 10.50 in hundredths
            3,
        )
        .unwrap();
    assert!(id >= 1);
    let r = store.submit_order(
        &stream(),
        "u1".to_string(),
        "m1".to_string(),
        "Yes".to_string(),
        "Buy".to_string(),
        1050,
        0,
    );
    assert!(matches!(r, Err(SubmitError::Rejected(_))));
}

#[test]
fn scenario_read_empty_group_returns_empty() {
    let mut store = LogStore::new();
    store.ensure_group(&stream(), &group());
    let batch = store
        .read(&stream(), &group(), &"c1".to_string(), 1, 1)
        .unwrap();
    assert!(batch.is_empty());
}

#[test]
fn ensure_group_is_idempotent() {
    let mut store = LogStore::new();
    store.ensure_group(&stream(), &group());
    let payload = encode(
        &build_create_order(
            "u1".to_string(),
            "m1".to_string(),
            "Yes".to_string(),
            "Buy".to_string(),
            1050,
            3,
        )
        .unwrap(),
    );
    let id = store.append(&stream(), payload.clone()).unwrap();
    // creating the group again neither errors nor resets the cursor
    store.ensure_group(&stream(), &group());
    let batch = store
        .read(&stream(), &group(), &"c1".to_string(), 10, 1)
        .unwrap();
    assert_eq!(batch.len(), 1);
    assert_eq!(batch[0].0, id);
    assert_eq!(batch[0].1, payload);
    store.ensure_group(&stream(), &group());
    // the second creation did not reset the watermark: nothing is redelivered
    let again = store
        .read(&stream(), &group(), &"c1".to_string(), 10, 1)
        .unwrap();
    assert!(again.is_empty());
}

#[test]
fn ack_is_idempotent() {
    let mut store = LogStore::new();
    store.ensure_group(&stream(), &group());
    let id = store.append(&stream(), vec![1, 2, 3]).unwrap();
    let batch = store
        .read(&stream(), &group(), &"c1".to_string(), 1, 1)
        .unwrap();
    assert_eq!(batch.len(), 1);
    assert_eq!(store.ack(&stream(), &group(), id), 1);
    assert_eq!(store.ack(&stream(), &group(), id), 0);
}

#[test]
fn ack_foreign_ids_is_a_noop() {
    let mut store = LogStore::new();
    store.ensure_group(&stream(), &group());
    let id = store.append(&stream(), vec![5]).unwrap();
    // never delivered: not pending
    assert_eq!(store.ack(&stream(), &group(), id), 0);
    // wrong stream and wrong group are no-ops, not errors
    assert_eq!(store.ack(&"elsewhere".to_string(), &group(), id), 0);
    assert_eq!(store.ack(&stream(), &"others".to_string(), id), 0);
}

#[test]
fn append_ids_are_strictly_increasing() {
    let mut store = LogStore::new();
    let a = store.append(&stream(), vec![1]).unwrap();
    let b = store.append(&stream(), vec![2]).unwrap();
    let c = store.append(&stream(), vec![3]).unwrap();
    assert!(a < b && b < c);
    store.ensure_group(&stream(), &group());
    let batch = store
        .read(&stream(), &group(), &"c1".to_string(), 10, 1)
        .unwrap();
    let ids: Vec<u64> = batch.iter().map(|e| e.0).collect();
    assert_eq!(ids, vec![a, b, c]);
    let payloads: Vec<Vec<u8>> = batch.into_iter().map(|e| e.1).collect();
    assert_eq!(payloads, vec![vec![1], vec![2], vec![3]]);
}

#[test]
fn read_respects_count_and_resumes() {
    let mut store = LogStore::new();
    store.ensure_group(&stream(), &group());
    let a = store.append(&stream(), vec![1]).unwrap();
    let b = store.append(&stream(), vec![2]).unwrap();
    let first = store
        .read(&stream(), &group(), &"c1".to_string(), 1, 1)
        .unwrap();
    assert_eq!(first.len(), 1);
    assert_eq!(first[0].0, a);
    let second = store
        .read(&stream(), &group(), &"c2".to_string(), 1, 1)
        .unwrap();
    assert_eq!(second.len(), 1);
    assert_eq!(second[0].0, b);
}

#[test]
fn read_without_group_fails() {
    let mut store = LogStore::new();
    store.append(&stream(), vec![1]).unwrap();
    assert!(store
        .read(&stream(), &group(), &"c1".to_string(), 1, 1)
        .is_err());
}

#[test]
fn unacked_entry_stays_claimable() {
    let mut store = LogStore::new();
    store.ensure_group(&stream(), &group());
    let id = store.append(&stream(), vec![42, 43]).unwrap();
    let batch = store
        .read(&stream(), &group(), &"c1".to_string(), 1, 1)
        .unwrap();
    assert_eq!(batch.len(), 1);
    // the consumer crashes without acking; the watermark has moved on
    let empty = store
        .read(&stream(), &group(), &"c1".to_string(), 1, 1)
        .unwrap();
    assert!(empty.is_empty());
    // but the entry is still pending and another consumer can reclaim it
    let (rid, payload) = store
        .claim(&stream(), &group(), &"c2".to_string(), id)
        .unwrap();
    assert_eq!(rid, id);
    assert_eq!(payload, vec![42, 43]);
    // once acknowledged it is gone for good
    assert_eq!(store.ack(&stream(), &group(), id), 1);
    assert!(store.claim(&stream(), &group(), &"c2".to_string(), id).is_none());
}

#[test]
fn claim_refuses_undelivered_entries() {
    let mut store = LogStore::new();
    store.ensure_group(&stream(), &group());
    let id = store.append(&stream(), vec![9]).unwrap();
    assert!(store.claim(&stream(), &group(), &"c1".to_string(), id).is_none());
}

#[test]
fn submitted_payload_decodes_to_the_built_command() {
    let mut store = LogStore::new();
    store.ensure_group(&stream(), &group());
    let id = store
        .submit_order(
            &stream(),
            "u7".to_string(),
            "m9".to_string(),
            "No".to_string(),
            "Sell".to_string(),
            250,
            11,
        )
        .unwrap();
    let batch = store
        .read(&stream(), &group(), &"matcher-1".to_string(), 1, 1)
        .unwrap();
    assert_eq!(batch.len(), 1);
    assert_eq!(batch[0].0, id);
    let decoded = order_ingest::codec::decode(&batch[0].1).unwrap();
    let expected = build_create_order(
        "u7".to_string(),
        "m9".to_string(),
        "No".to_string(),
        "Sell".to_string(),
        250,
        11,
    )
    .unwrap();
    assert_eq!(decoded, expected);
}

#[test]
fn error_response_keeps_its_message() {
    let resp = order_ingest::ErrorResponse::new("Invalid request parameters".to_string());
    assert_eq!(resp.error, "Invalid request parameters");
}
