use geyser_plugin_cos::config::GeyserPluginCosConfig;
use geyser_plugin_cos::plugin::GeyserPluginCos;
use geyser_plugin_cos::storage::FsOp;
use geyser_plugin_cos::wire::PluginEvent;
use geyser_plugin_cos::records::{TransactionRecord, TransactionEvent, EntryEvent, BlockInfoEvent,
    SlotStatus};

fn config() -> GeyserPluginCosConfig {
    GeyserPluginCosConfig {
        workspace: String::from("ws"),
        slot_range: 1000,
        commit_slot_delay: 100,
        max_file_size_mb: 1,
    }
}

fn tx_event(slot: u64, index: usize, sig: &str) -> TransactionEvent {
    TransactionEvent {
        slot,
        index,
        transaction: TransactionRecord {
            signature: String::from(sig),
            err: None,
            addresses: Vec::new(),
            memo: None,
        },
    }
}

fn block_info(slot: u64, tx_count: u64, entry_count: u64) -> BlockInfoEvent {
    BlockInfoEvent {
        parent_slot: slot.saturating_sub(1),
        parent_blockhash: String::from("parent"),
        slot,
        blockhash: String::from("hash"),
        rewards: Vec::new(),
        block_time: Some(7),
        block_height: Some(slot),
        executed_transaction_count: tx_count,
        entry_count,
    }
}

#[test]
fn incomplete_slot_is_discarded_not_committed() {
    let mut p = GeyserPluginCos::new(&config());
    let slot = 2000;
    p.on_block_info(block_info(slot, 3, 0)).unwrap();
    p.on_transaction(tx_event(slot, 0, "A")).unwrap();
    p.on_transaction(tx_event(slot, 1, "B")).unwrap();
    p.on_slot_status(slot, SlotStatus::Rooted).unwrap();

    // Two of three expected transactions: finalization must discard.
    let outcome = p.finalize_slot(slot).unwrap();
    assert!(outcome.is_none());
    assert!(!p.contains_slot(slot));
    assert!(!p.staging_has_range(2000));
}

#[test]
fn complete_rooted_slot_is_committed() {
    let mut p = GeyserPluginCos::new(&config());
    let slot = 2000;
    p.on_block_info(block_info(slot, 2, 1)).unwrap();
    p.on_transaction(tx_event(slot, 0, "A")).unwrap();
    p.on_transaction(tx_event(slot, 1, "B")).unwrap();
    p.on_entry(EntryEvent {
        slot,
        index: 0,
        num_hashes: 3,
        hash: vec![1, 2],
        executed_transaction_count: 2,
        starting_transaction_index: 0,
    })
        .unwrap();
    p.on_slot_status(slot, SlotStatus::Rooted).unwrap();

    let outcome = p.finalize_slot(slot).unwrap();
    let plan = outcome.expect("a complete rooted slot must commit");
    assert!(!plan.is_empty());
    assert!(!p.contains_slot(slot));
    assert!(p.staging_has_range(2000));
}

#[test]
fn non_rooted_slot_is_discarded_at_removal_time() {
    let mut p = GeyserPluginCos::new(&config());
    let slot = 2000;
    p.on_block_info(block_info(slot, 0, 0)).unwrap();
    p.on_slot_status(slot, SlotStatus::Confirmed).unwrap();
    let outcome = p.finalize_slot(slot).unwrap();
    assert!(outcome.is_none());
    assert!(!p.contains_slot(slot));
}

#[test]
fn assembly_is_order_independent_across_pipelines() {
    let mut a = GeyserPluginCos::new(&config());
    let mut b = GeyserPluginCos::new(&config());
    let slot = 2000;
    for p in [&mut a, &mut b] {
        p.on_block_info(block_info(slot, 3, 0)).unwrap();
    }
    for (i, s) in [(2usize, "C"), (0, "A"), (1, "B")] {
        a.on_transaction(tx_event(slot, i, s)).unwrap();
    }
    for (i, s) in [(0usize, "A"), (1, "B"), (2, "C")] {
        b.on_transaction(tx_event(slot, i, s)).unwrap();
    }
    let ra = a.get_record(slot).unwrap();
    let rb = b.get_record(slot).unwrap();
    assert_eq!(ra.transactions.len(), rb.transactions.len());
    for (ta, tb) in ra.transactions.iter().zip(rb.transactions.iter()) {
        assert_eq!(ta.signature, tb.signature);
    }
}

#[test]
fn rooting_sweeps_the_lag_window() {
    let mut p = GeyserPluginCos::new(&config());
    let slot = 2000;
    p.on_block_info(block_info(slot, 0, 0)).unwrap();
    p.on_slot_status(slot, SlotStatus::Rooted).unwrap();
    assert!(p.contains_slot(slot));

    // Rooting a slot 90 ahead puts 2000 inside the window [1990, 2080].
    let plan = p.on_slot_status(2090, SlotStatus::Rooted).unwrap();
    assert!(!p.contains_slot(slot));
    assert!(!plan.is_empty());
    assert!(p.staging_has_range(2000));
}

#[test]
fn a_sweep_commits_the_complete_and_discards_the_partial() {
    let mut p = GeyserPluginCos::new(&config());
    // Two slots in the same future window: one complete and rooted, one
    // rooted but short of its expected count.
    p.on_block_info(block_info(2000, 1, 0)).unwrap();
    p.on_transaction(tx_event(2000, 0, "A")).unwrap();
    p.on_slot_status(2000, SlotStatus::Rooted).unwrap();
    p.on_block_info(block_info(2001, 2, 0)).unwrap();
    p.on_transaction(tx_event(2001, 0, "B")).unwrap();
    p.on_slot_status(2001, SlotStatus::Rooted).unwrap();

    // Rooting slot 2090 sweeps [1990, 2080]: 2000 commits, 2001 is dropped.
    let plan = p.on_slot_status(2090, SlotStatus::Rooted).unwrap();
    assert!(!plan.is_empty());
    assert!(!p.contains_slot(2000));
    assert!(!p.contains_slot(2001));
    assert!(p.staging_has_range(2000));
    // The plan stages only the committed slot's directory.
    let staged_slots: Vec<&String> = plan
        .iter()
        .filter_map(|op| match op {
            FsOp::ClearSlotDir { slot, .. } => Some(slot),
            _ => None,
        })
        .collect();
    assert_eq!(staged_slots, vec![&format!("slot_{:016x}", 2000u64)]);
}

#[test]
fn replayed_events_drive_the_same_pipeline() {
    let mut p = GeyserPluginCos::new(&config());
    p.on_plugin_event(PluginEvent::BlockInfo(block_info(2000, 1, 0))).unwrap();
    p.on_plugin_event(PluginEvent::Transaction(tx_event(2000, 0, "A"))).unwrap();
    let plan = p
        .on_plugin_event(PluginEvent::Status { slot: 2000, status: SlotStatus::Rooted })
        .unwrap();
    // Nothing old enough to finalize yet.
    assert!(plan.is_empty());
    assert!(p.contains_slot(2000));
    let plan = p
        .on_plugin_event(PluginEvent::Status { slot: 2090, status: SlotStatus::Rooted })
        .unwrap();
    assert!(!plan.is_empty());
    assert!(!p.contains_slot(2000));
    assert!(p.staging_has_range(2000));
}

#[test]
fn events_below_the_first_valid_slot_are_skipped() {
    let mut p = GeyserPluginCos::new(&config());
    let err = p.on_transaction(tx_event(1550, 0, "A")).unwrap_err();
    assert!(err.is_skip_incomplete_block_range());
    assert_eq!(p.first_valid_slot(), Some(2000));
    assert!(p.on_transaction(tx_event(1999, 0, "A")).is_err());
    assert!(!p.contains_slot(1999));
    assert!(p.on_transaction(tx_event(2000, 0, "A")).is_ok());
    assert!(p.contains_slot(2000));
}
