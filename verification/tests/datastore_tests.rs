use geyser_plugin_cos::config::GeyserPluginCosConfig;
use geyser_plugin_cos::datastore::Datastore;
use geyser_plugin_cos::records::{TransactionRecord, EntryRecord, BlockInfoEvent, SlotStatus};

fn config() -> GeyserPluginCosConfig {
    GeyserPluginCosConfig {
        workspace: String::from("ws"),
        slot_range: 1000,
        commit_slot_delay: 100,
        max_file_size_mb: 1,
    }
}

fn tx(sig: &str) -> TransactionRecord {
    TransactionRecord {
        signature: String::from(sig),
        err: None,
        addresses: Vec::new(),
        memo: None,
    }
}

#[test]
fn first_slot_rounds_up_to_the_next_range() {
    let mut ds = Datastore::new(&config());
    assert_eq!(ds.first_slot_value(), None);
    // The very first observed slot fixes the boundary at the next multiple
    // of the range size; the observed slot itself lies below it.
    let r = ds.check_first_slot(1550);
    assert_eq!(ds.first_slot_value(), Some(2000));
    assert!(r.is_err());
    assert!(ds.check_first_slot(1999).is_err());
    assert!(ds.check_first_slot(2000).is_ok());
    assert!(ds.check_first_slot(2001).is_ok());
    // The boundary never moves again.
    assert_eq!(ds.first_slot_value(), Some(2000));
}

#[test]
fn first_slot_on_a_boundary_is_accepted_at_once() {
    let mut ds = Datastore::new(&config());
    assert!(ds.check_first_slot(3000).is_ok());
    assert_eq!(ds.first_slot_value(), Some(3000));
    assert!(ds.check_first_slot(2999).is_err());
}

#[test]
fn transactions_assemble_independently_of_delivery_order() {
    let mut a = Datastore::new(&config());
    a.apply_transaction(5, 2, tx("C"));
    a.apply_transaction(5, 0, tx("A"));
    a.apply_transaction(5, 1, tx("B"));

    let mut b = Datastore::new(&config());
    b.apply_transaction(5, 0, tx("A"));
    b.apply_transaction(5, 1, tx("B"));
    b.apply_transaction(5, 2, tx("C"));

    let ra = a.get_record(5).unwrap();
    let rb = b.get_record(5).unwrap();
    let sigs_a: Vec<&str> = ra.transactions.iter().map(|t| t.signature.as_str()).collect();
    let sigs_b: Vec<&str> = rb.transactions.iter().map(|t| t.signature.as_str()).collect();
    assert_eq!(sigs_a, vec!["A", "B", "C"]);
    assert_eq!(sigs_a, sigs_b);
}

#[test]
fn sparse_indices_are_filled_with_placeholders() {
    let mut ds = Datastore::new(&config());
    ds.apply_transaction(5, 2, tx("C"));
    let rec = ds.get_record(5).unwrap();
    assert_eq!(rec.transactions.len(), 3);
    assert_eq!(rec.transactions[0].signature, "");
    assert_eq!(rec.transactions[1].signature, "");
    assert_eq!(rec.transactions[2].signature, "C");
}

#[test]
fn entries_grow_by_index_too() {
    let mut ds = Datastore::new(&config());
    ds.apply_entry(
        9,
        1,
        EntryRecord { num_hashes: 4, hash: vec![0xaa], num_transactions: 2,
            starting_transaction_index: 0 },
    );
    let rec = ds.get_record(9).unwrap();
    assert_eq!(rec.entries.len(), 2);
    assert_eq!(rec.entries[0].num_hashes, 0);
    assert_eq!(rec.entries[1].num_hashes, 4);
    assert_eq!(rec.entries[1].hash, vec![0xaa]);
}

#[test]
fn block_info_overwrites_metadata_and_counts() {
    let mut ds = Datastore::new(&config());
    ds.apply_transaction(7, 0, tx("A"));
    ds.apply_block_info(BlockInfoEvent {
        parent_slot: 6,
        parent_blockhash: String::from("ph"),
        slot: 7,
        blockhash: String::from("bh"),
        rewards: Vec::new(),
        block_time: Some(11),
        block_height: Some(3),
        executed_transaction_count: 1,
        entry_count: 0,
    });
    let rec = ds.get_record(7).unwrap();
    assert_eq!(rec.parent_slot, 6);
    assert_eq!(rec.previous_blockhash, "ph");
    assert_eq!(rec.blockhash, "bh");
    assert_eq!(rec.block_time, Some(11));
    assert_eq!(rec.block_height, Some(3));
    assert_eq!(rec.executed_transaction_count, 1);
    assert_eq!(rec.entry_count, 0);
    // The transaction applied earlier survives the metadata overwrite.
    assert_eq!(rec.transactions.len(), 1);
}

#[test]
fn status_is_overwritten_and_records_removed() {
    let mut ds = Datastore::new(&config());
    ds.apply_status(4, SlotStatus::Processed);
    ds.apply_status(4, SlotStatus::Rooted);
    assert!(matches!(ds.get_record(4).unwrap().slot_status, SlotStatus::Rooted));
    let taken = ds.remove_entry(4);
    assert!(taken.is_some());
    assert!(!ds.contains_slot(4));
    assert!(ds.remove_entry(4).is_none());
}
