use geyser_plugin_cos::event::Event;
use geyser_plugin_cos::records::{BlockInfoEvent, EntryEvent, Reward, SlotStatus,
    TouchedAddress, TransactionEvent, TransactionRecord};
use geyser_plugin_cos::wal::{frame_event, parse_events};
use geyser_plugin_cos::wire::{decode_plugin_event, encode_plugin_event, PluginEvent};

fn tx_event() -> PluginEvent {
    PluginEvent::Transaction(TransactionEvent {
        slot: 77,
        index: 3,
        transaction: TransactionRecord {
            signature: String::from("sig"),
            err: Some(String::from("oops")),
            addresses: vec![
                TouchedAddress { key: String::from("a1"), reserved: false },
                TouchedAddress { key: String::from("sys"), reserved: true },
            ],
            memo: None,
        },
    })
}

#[test]
fn status_events_round_trip() {
    for (status, tag) in [
        (SlotStatus::Processed, 0u8),
        (SlotStatus::Rooted, 1u8),
        (SlotStatus::Confirmed, 2u8),
    ] {
        let bytes = encode_plugin_event(&PluginEvent::Status { slot: 42, status });
        assert_eq!(bytes[0], 0);
        assert_eq!(*bytes.last().unwrap(), tag);
        match decode_plugin_event(&bytes) {
            Some(PluginEvent::Status { slot, status: st }) => {
                assert_eq!(slot, 42);
                assert_eq!(
                    match st {
                        SlotStatus::Processed => 0u8,
                        SlotStatus::Rooted => 1,
                        SlotStatus::Confirmed => 2,
                    },
                    tag
                );
            },
            _ => panic!("wrong decode"),
        }
    }
}

#[test]
fn transaction_events_round_trip() {
    let bytes = encode_plugin_event(&tx_event());
    assert_eq!(bytes[0], 1);
    match decode_plugin_event(&bytes) {
        Some(PluginEvent::Transaction(t)) => {
            assert_eq!(t.slot, 77);
            assert_eq!(t.index, 3);
            assert_eq!(t.transaction.signature, "sig");
            assert_eq!(t.transaction.err.as_deref(), Some("oops"));
            assert_eq!(t.transaction.addresses.len(), 2);
            assert_eq!(t.transaction.addresses[0].key, "a1");
            assert!(!t.transaction.addresses[0].reserved);
            assert_eq!(t.transaction.addresses[1].key, "sys");
            assert!(t.transaction.addresses[1].reserved);
            assert_eq!(t.transaction.memo, None);
        },
        _ => panic!("wrong decode"),
    }
}

#[test]
fn block_info_events_round_trip() {
    let ev = PluginEvent::BlockInfo(BlockInfoEvent {
        parent_slot: 9,
        parent_blockhash: String::from("ph"),
        slot: 10,
        blockhash: String::from("bh"),
        rewards: vec![Reward {
            pubkey: String::from("pk"),
            lamports: -5,
            post_balance: 100,
            commission_percent: Some(7),
        }],
        block_time: Some(-12),
        block_height: None,
        executed_transaction_count: 2,
        entry_count: 1,
    });
    let bytes = encode_plugin_event(&ev);
    assert_eq!(bytes[0], 2);
    match decode_plugin_event(&bytes) {
        Some(PluginEvent::BlockInfo(b)) => {
            assert_eq!(b.parent_slot, 9);
            assert_eq!(b.parent_blockhash, "ph");
            assert_eq!(b.slot, 10);
            assert_eq!(b.blockhash, "bh");
            assert_eq!(b.rewards.len(), 1);
            assert_eq!(b.rewards[0].pubkey, "pk");
            assert_eq!(b.rewards[0].lamports, -5);
            assert_eq!(b.rewards[0].post_balance, 100);
            assert_eq!(b.rewards[0].commission_percent, Some(7));
            assert_eq!(b.block_time, Some(-12));
            assert_eq!(b.block_height, None);
            assert_eq!(b.executed_transaction_count, 2);
            assert_eq!(b.entry_count, 1);
        },
        _ => panic!("wrong decode"),
    }
}

#[test]
fn entry_events_round_trip() {
    let ev = PluginEvent::Entry(EntryEvent {
        slot: 5,
        index: 2,
        num_hashes: 11,
        hash: vec![1, 2, 3],
        executed_transaction_count: 4,
        starting_transaction_index: 1,
    });
    let bytes = encode_plugin_event(&ev);
    assert_eq!(bytes[0], 3);
    match decode_plugin_event(&bytes) {
        Some(PluginEvent::Entry(e)) => {
            assert_eq!(e.slot, 5);
            assert_eq!(e.index, 2);
            assert_eq!(e.num_hashes, 11);
            assert_eq!(e.hash, vec![1, 2, 3]);
            assert_eq!(e.executed_transaction_count, 4);
            assert_eq!(e.starting_transaction_index, 1);
        },
        _ => panic!("wrong decode"),
    }
}

#[test]
fn malformed_records_are_rejected() {
    assert!(decode_plugin_event(&Vec::new()).is_none());
    assert!(decode_plugin_event(&vec![9u8, 1, 2]).is_none());
    // A truncated record fails; one with trailing bytes fails too.
    let mut bytes = encode_plugin_event(&tx_event());
    let short = bytes[0..bytes.len() - 1].to_vec();
    assert!(decode_plugin_event(&short).is_none());
    bytes.push(0);
    assert!(decode_plugin_event(&bytes).is_none());
}

#[test]
fn logged_events_survive_the_log_framing() {
    let mut buf = frame_event(&Event::new(encode_plugin_event(&tx_event())));
    buf.extend_from_slice(&frame_event(&Event::new(encode_plugin_event(&PluginEvent::Status {
        slot: 80,
        status: SlotStatus::Rooted,
    }))));
    buf.push(3); // torn tail
    let records = parse_events(&buf);
    assert_eq!(records.len(), 2);
    assert!(matches!(
        decode_plugin_event(&records[0].data),
        Some(PluginEvent::Transaction(_))
    ));
    assert!(matches!(
        decode_plugin_event(&records[1].data),
        Some(PluginEvent::Status { slot: 80, .. })
    ));
}
