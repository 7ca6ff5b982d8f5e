use bitserv::ChainEvent;
use bitserv::encode_event;
use bitserv::frame_event;
use bitserv::topic_of;
use bitserv::u64_to_dec;

#[test]
fn topics_follow_event_kind() {
    let deposits = ChainEvent::NewDeposits { deposits: vec![] };
    let transaction = ChainEvent::NewTransaction {
        txid: "t".to_string(),
        amount: 1,
        confirmations: 0,
    };
    let address = ChainEvent::NewAddress { address: "a".to_string() };
    assert_eq!(topic_of(&deposits), "NewDeposits");
    assert_eq!(topic_of(&transaction), "NewTransaction");
    assert_eq!(topic_of(&address), "NewAddress");
}

#[test]
fn new_transaction_payload_is_exact() {
    let event = ChainEvent::NewTransaction {
        txid: "abc123".to_string(),
        amount: 100000,
        confirmations: 1,
    };
    assert_eq!(
        encode_event(&event),
        "{\"NewTransaction\":{\"txid\":\"abc123\",\"amount\":100000,\"confirmations\":1}}"
    );
}

#[test]
fn new_address_payload_is_exact() {
    let event = ChainEvent::NewAddress { address: "bc1qxxx...".to_string() };
    assert_eq!(
        encode_event(&event),
        "{\"NewAddress\":{\"address\":\"bc1qxxx...\"}}"
    );
}

#[test]
fn new_deposits_payload_is_exact() {
    let event = ChainEvent::NewDeposits {
        deposits: vec![
            ("address1".to_string(), 50000, "txid1".to_string()),
            ("address2".to_string(), 75000, "txid2".to_string()),
        ],
    };
    assert_eq!(
        encode_event(&event),
        "{\"NewDeposits\":{\"deposits\":[[\"address1\",50000,\"txid1\"],[\"address2\",75000,\"txid2\"]]}}"
    );
}

#[test]
fn empty_deposit_list_payload_is_exact() {
    let event = ChainEvent::NewDeposits { deposits: vec![] };
    assert_eq!(encode_event(&event), "{\"NewDeposits\":{\"deposits\":[]}}");
}

#[test]
fn string_escaping_is_json() {
    let event = ChainEvent::NewAddress {
        address: "a\"b\\c\nd".to_string(),
    };
    assert_eq!(
        encode_event(&event),
        "{\"NewAddress\":{\"address\":\"a\\\"b\\\\c\\u000ad\"}}"
    );
}

#[test]
fn payload_parses_as_json() {
    let event = ChainEvent::NewTransaction {
        txid: "fe\"ed".to_string(),
        amount: 42,
        confirmations: 6,
    };
    let payload = encode_event(&event);
    let value: serde_json::Value = serde_json::from_str(&payload).expect("payload must be JSON");
    assert_eq!(value["NewTransaction"]["txid"], "fe\"ed");
    assert_eq!(value["NewTransaction"]["amount"], 42);
    assert_eq!(value["NewTransaction"]["confirmations"], 6);

    let deposits_event = ChainEvent::NewDeposits {
        deposits: vec![("addr".to_string(), 5000, "tx".to_string())],
    };
    let deposits_payload = encode_event(&deposits_event);
    let deposits_value: serde_json::Value =
        serde_json::from_str(&deposits_payload).expect("payload must be JSON");
    assert_eq!(deposits_value["NewDeposits"]["deposits"][0][0], "addr");
    assert_eq!(deposits_value["NewDeposits"]["deposits"][0][1], 5000);
    assert_eq!(deposits_value["NewDeposits"]["deposits"][0][2], "tx");
}

#[test]
fn frame_carries_topic_and_payload() {
    let event = ChainEvent::NewAddress { address: "x".to_string() };
    let (topic, payload) = frame_event(&event);
    assert_eq!(topic, "NewAddress");
    assert_eq!(payload, "{\"NewAddress\":{\"address\":\"x\"}}");
}

#[test]
fn decimal_rendering_is_exact() {
    assert_eq!(u64_to_dec(0), "0");
    assert_eq!(u64_to_dec(7), "7");
    assert_eq!(u64_to_dec(100000), "100000");
    assert_eq!(u64_to_dec(18446744073709551615), "18446744073709551615");
}
