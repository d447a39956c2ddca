use geyser_plugin_cos::config::GeyserPluginCosConfig;
use geyser_plugin_cos::records::{CosVersionedConfirmedBlockWithEntries, TransactionRecord,
    TouchedAddress, EntryRecord};
use geyser_plugin_cos::storage::{StorageManager, FsOp};

fn config() -> GeyserPluginCosConfig {
    GeyserPluginCosConfig {
        workspace: String::from("ws"),
        slot_range: 1000,
        commit_slot_delay: 100,
        max_file_size_mb: 1,
    }
}

fn record() -> CosVersionedConfirmedBlockWithEntries {
    CosVersionedConfirmedBlockWithEntries::default()
}

fn op_eq(a: &FsOp, b: &FsOp) -> bool {
    match (a, b) {
        (
            FsOp::ClearSlotDir { range: r1, slot: s1 },
            FsOp::ClearSlotDir { range: r2, slot: s2 },
        ) => r1 == r2 && s1 == s2,
        (
            FsOp::WriteCell { range: r1, slot: s1, table: t1, file: f1, data: d1 },
            FsOp::WriteCell { range: r2, slot: s2, table: t2, file: f2, data: d2 },
        ) => r1 == r2 && s1 == s2 && t1 == t2 && f1 == f2 && d1 == d2,
        (FsOp::MoveRange { range: r1 }, FsOp::MoveRange { range: r2 }) => r1 == r2,
        _ => false,
    }
}

#[test]
fn trigger_slot_relocates_all_previous_ranges() {
    let mut sm = StorageManager::new(&config());
    sm.save(42, &record()).unwrap();
    sm.save(1050, &record()).unwrap();
    assert!(sm.staging_has_range(0));
    assert!(sm.staging_has_range(1000));
    assert!(!sm.ready_has_range(0));

    // 1100 mod 1000 == 100, the commit delay: the trigger slot of its range.
    let plan = sm.save(1100, &record()).unwrap();
    assert!(sm.ready_has_range(0));
    assert!(!sm.staging_has_range(0));
    assert!(sm.staging_has_range(1000));
    assert!(!sm.ready_has_range(1000));
    let moves: Vec<&FsOp> = plan
        .iter()
        .filter(|op| matches!(op, FsOp::MoveRange { .. }))
        .collect();
    assert_eq!(moves.len(), 1);
    match moves[0] {
        FsOp::MoveRange { range } => {
            assert_eq!(range, "range_0000000000000000_00000000000003e8");
        },
        _ => unreachable!(),
    }
}

#[test]
fn non_trigger_slots_move_nothing() {
    let mut sm = StorageManager::new(&config());
    let plan = sm.save(42, &record()).unwrap();
    assert!(plan.iter().all(|op| !matches!(op, FsOp::MoveRange { .. })));
    assert!(sm.staging_has_range(0));
    assert!(!sm.ready_has_range(0));
}

#[test]
fn repeated_save_of_a_slot_changes_nothing_more() {
    let mut sm = StorageManager::new(&config());
    sm.save(42, &record()).unwrap();
    let plan1 = sm.save(1100, &record()).unwrap();
    let staging1 = sm.staging_ranges();
    assert!(sm.ready_has_range(0));

    // The same slot again, with identical data: the same cells land over
    // the old ones and nothing further moves.
    let plan2 = sm.save(1100, &record()).unwrap();
    let staging2 = sm.staging_ranges();
    assert_eq!(staging1, staging2);
    assert!(sm.ready_has_range(0));
    assert!(!sm.ready_has_range(1000));

    // The second plan repeats the first, minus the relocation it already
    // performed.
    let writes1: Vec<&FsOp> = plan1
        .iter()
        .filter(|op| !matches!(op, FsOp::MoveRange { .. }))
        .collect();
    assert_eq!(writes1.len(), plan2.len());
    for (a, b) in writes1.iter().zip(plan2.iter()) {
        assert!(op_eq(a, b));
    }
}

#[test]
fn relocation_refuses_to_overwrite_ready_ranges() {
    let mut sm = StorageManager::new(&config());
    sm.save(42, &record()).unwrap();
    sm.save(1100, &record()).unwrap();
    assert!(sm.ready_has_range(0));

    // Stage the already-committed range again, then trigger from another
    // range: the relocation would overwrite ready content and must fail.
    sm.save(43, &record()).unwrap();
    let r = sm.save(2100, &record());
    assert!(r.is_err());
    assert!(sm.ready_has_range(0));
    assert!(!sm.ready_has_range(1000));
    assert!(sm.staging_has_range(0));
}

#[test]
fn plans_write_every_table_of_a_full_slot() {
    let mut rec = record();
    rec.transactions.push(TransactionRecord {
        signature: String::from("sig1"),
        err: None,
        addresses: vec![TouchedAddress { key: String::from("addr1"), reserved: false }],
        memo: None,
    });
    rec.entries.push(EntryRecord {
        num_hashes: 1,
        hash: vec![9],
        num_transactions: 1,
        starting_transaction_index: 0,
    });
    let mut sm = StorageManager::new(&config());
    let plan = sm.save(42, &record()).unwrap();
    // A bare record still writes its blocks cell.
    assert_eq!(plan.len(), 2);
    let mut sm = StorageManager::new(&config());
    let plan = sm.save(42, &rec).unwrap();
    // Clear, then one cell per table: tx, tx_by_addr, entries, blocks.
    assert_eq!(plan.len(), 5);
    let tables: Vec<&str> = plan
        .iter()
        .filter_map(|op| match op {
            FsOp::WriteCell { table, .. } => Some(table.as_str()),
            _ => None,
        })
        .collect();
    assert_eq!(tables, vec!["tx", "tx_by_addr", "entries", "blocks"]);
}
