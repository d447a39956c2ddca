use geyser_plugin_cos::errors::GeyserPluginCosError;
use geyser_plugin_cos::event::Event;
use geyser_plugin_cos::records::{CosVersionedConfirmedBlockWithEntries, TransactionRecord,
    EntryEvent, SlotStatus, placeholder_transaction, placeholder_entry, grow_and_set_transaction,
    grow_and_set_entry};

#[test]
fn a_fresh_record_is_empty_and_processed() {
    let rec = CosVersionedConfirmedBlockWithEntries::default();
    assert_eq!(rec.transactions.len(), 0);
    assert_eq!(rec.entries.len(), 0);
    assert_eq!(rec.executed_transaction_count, 0);
    assert_eq!(rec.entry_count, 0);
    assert!(matches!(rec.slot_status, SlotStatus::Processed));
    // Zero expected, zero present: trivially complete.
    assert!(rec.is_complete());
}

#[test]
fn completeness_needs_both_counts() {
    let mut rec = CosVersionedConfirmedBlockWithEntries::default();
    rec.executed_transaction_count = 1;
    assert!(!rec.is_complete());
    rec.transactions.push(placeholder_transaction());
    assert!(rec.is_complete());
    rec.entry_count = 2;
    assert!(!rec.is_complete());
    rec.entries.push(placeholder_entry());
    rec.entries.push(placeholder_entry());
    assert!(rec.is_complete());
}

#[test]
fn growth_overwrites_and_pads() {
    let mut v: Vec<TransactionRecord> = Vec::new();
    grow_and_set_transaction(&mut v, 2, TransactionRecord {
        signature: String::from("X"),
        err: None,
        addresses: Vec::new(),
        memo: None,
    });
    assert_eq!(v.len(), 3);
    assert_eq!(v[2].signature, "X");
    grow_and_set_transaction(&mut v, 0, TransactionRecord {
        signature: String::from("Y"),
        err: None,
        addresses: Vec::new(),
        memo: None,
    });
    assert_eq!(v.len(), 3);
    assert_eq!(v[0].signature, "Y");

    let mut e = Vec::new();
    grow_and_set_entry(&mut e, 1, placeholder_entry());
    assert_eq!(e.len(), 2);
}

#[test]
fn entry_events_become_entry_records() {
    let ev = EntryEvent {
        slot: 3,
        index: 0,
        num_hashes: 7,
        hash: vec![1, 2, 3],
        executed_transaction_count: 9,
        starting_transaction_index: 4,
    };
    let rec = ev.to_record();
    assert_eq!(rec.num_hashes, 7);
    assert_eq!(rec.hash, vec![1, 2, 3]);
    assert_eq!(rec.num_transactions, 9);
    assert_eq!(rec.starting_transaction_index, 4);
}

#[test]
fn events_carry_their_payload() {
    let e = Event::new(vec![5, 6]);
    assert_eq!(e.data, vec![5, 6]);
}

#[test]
fn error_messages_name_each_failure() {
    assert_eq!(
        GeyserPluginCosError::SkipIncompleteBlockRange.message(),
        "Skipping incomplete block range"
    );
    assert_eq!(
        GeyserPluginCosError::ReplicaBlockV001NotSupported.message(),
        "Replica block V0.0.1/v0.0.2 not supported anymore"
    );
    assert_eq!(
        GeyserPluginCosError::ReplicaTransactionV001NotSupported.message(),
        "Replica transaction V0.0.1 not supported anymore"
    );
    assert_eq!(
        GeyserPluginCosError::ReplicaEntryV001NotSupported.message(),
        "Replica entry V0.0.1 not supported anymore"
    );
    let e = GeyserPluginCosError::InternalError { msg: String::from("boom") };
    assert_eq!(e.message(), "boom");
    assert!(!e.is_skip_incomplete_block_range());
    assert!(GeyserPluginCosError::SkipIncompleteBlockRange.is_skip_incomplete_block_range());
}
