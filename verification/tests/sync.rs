use bitserv::BlockInfo;
use bitserv::ChainEvent;
use bitserv::OutputInfo;
use bitserv::SyncHandle;
use bitserv::SyncSession;
use bitserv::TxInfo;
use bitserv::detect_deposits;

fn owned(address: &str, sats: u64) -> OutputInfo {
    OutputInfo {
        owned: true,
        address: Some(address.to_string()),
        amount_sats: sats,
    }
}

fn foreign(sats: u64) -> OutputInfo {
    OutputInfo {
        owned: false,
        address: Some("someone-else".to_string()),
        amount_sats: sats,
    }
}

#[test]
fn detection_collects_owned_outputs_in_block_order() {
    let block = BlockInfo {
        height: 100,
        txs: vec![
            TxInfo {
                txid: "t-one".to_string(),
                outputs: vec![foreign(1), owned("addr-a", 5000)],
            },
            TxInfo {
                txid: "t-two".to_string(),
                outputs: vec![
                    owned("addr-b", 3000),
                    OutputInfo {
                        owned: true,
                        address: None,
                        amount_sats: 99,
                    },
                    owned("addr-c", 7000),
                ],
            },
        ],
    };
    let deposits = detect_deposits(&block);
    assert_eq!(
        deposits,
        vec![
            ("addr-a".to_string(), 5000, "t-one".to_string()),
            ("addr-b".to_string(), 3000, "t-two".to_string()),
            ("addr-c".to_string(), 7000, "t-two".to_string()),
        ]
    );
}

#[test]
fn one_event_per_block_in_height_order() {
    let height_base = 100u32;
    let blocks: Vec<BlockInfo> = (0..3)
        .map(|k: u32| BlockInfo {
            height: height_base + k,
            txs: vec![TxInfo {
                txid: format!("tx-{}", k),
                outputs: vec![owned(&format!("addr-{}", k), 1000 + u64::from(k))],
            }],
        })
        .collect();

    let mut session = SyncSession::start(height_base - 1);
    let mut events = Vec::new();
    for block in &blocks {
        let outcome = session.process_block(block);
        assert_eq!(outcome.height, block.height);
        if let Some(event) = outcome.event {
            events.push((block.height, event));
        }
    }
    assert_eq!(events.len(), 3, "each depositing block publishes exactly once");
    for (k, (height, event)) in events.iter().enumerate() {
        assert_eq!(*height, height_base + k as u32);
        match event {
            ChainEvent::NewDeposits { deposits } => {
                assert_eq!(
                    deposits,
                    &vec![(
                        format!("addr-{}", k),
                        1000 + k as u64,
                        format!("tx-{}", k)
                    )]
                );
            }
            _ => panic!("expected a deposits event"),
        }
    }
    assert_eq!(session.checkpoint, height_base + 2);
}

#[test]
fn multi_output_block_publishes_one_event_with_full_list() {
    let block = BlockInfo {
        height: 101,
        txs: vec![TxInfo {
            txid: "t".to_string(),
            outputs: vec![owned("A", 5000), owned("B", 3000)],
        }],
    };
    let mut session = SyncSession::start(100);
    let outcome = session.process_block(&block);
    match outcome.event {
        Some(ChainEvent::NewDeposits { deposits }) => {
            assert_eq!(
                deposits,
                vec![
                    ("A".to_string(), 5000, "t".to_string()),
                    ("B".to_string(), 3000, "t".to_string()),
                ]
            );
        }
        _ => panic!("a block with owned outputs publishes one deposits event"),
    }
}

#[test]
fn quiet_block_publishes_nothing_but_advances() {
    let block = BlockInfo {
        height: 55,
        txs: vec![TxInfo {
            txid: "t".to_string(),
            outputs: vec![foreign(123)],
        }],
    };
    let mut session = SyncSession::start(54);
    let outcome = session.process_block(&block);
    assert!(outcome.event.is_none(), "no owned output, no event");
    assert_eq!(session.checkpoint, 55, "the checkpoint still advances");
}

#[test]
fn stop_sync_fires_once() {
    let mut handle = SyncHandle::new();
    assert!(handle.stop_sync(), "the first stop request fires");
    assert!(!handle.stop_sync(), "the second is a no-op");
    assert!(!handle.stop_sync(), "and so is every later one");
}

#[test]
fn cancellation_is_observed_at_round_boundaries_and_is_permanent() {
    let mut session = SyncSession::start(10);
    assert!(session.round_boundary(false), "no signal: the loop continues");
    assert!(!session.round_boundary(true), "signalled: the loop stops");
    assert!(!session.round_boundary(false), "and stays stopped");
    assert!(session.stopped);
    assert_eq!(session.checkpoint, 10, "boundaries do not move the checkpoint");
}

#[test]
fn mixed_blocks_publish_only_for_deposits() {
    let depositing = BlockInfo {
        height: 7,
        txs: vec![TxInfo {
            txid: "d".to_string(),
            outputs: vec![owned("addr", 42)],
        }],
    };
    let quiet = BlockInfo {
        height: 8,
        txs: vec![],
    };
    let mut session = SyncSession::start(6);
    let first = session.process_block(&depositing);
    let second = session.process_block(&quiet);
    assert!(first.event.is_some());
    assert!(second.event.is_none());
    assert_eq!(session.checkpoint, 8);
}
