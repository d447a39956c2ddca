use geyser_plugin_cos::cells::{build_slot_cells, Table, CellExt};
use geyser_plugin_cos::compression::decompress;
use geyser_plugin_cos::encode::{encode_tx_info, encode_entries_cell, encode_tx_by_addr_list,
    TxByAddrInfo};
use geyser_plugin_cos::records::{CosVersionedConfirmedBlockWithEntries, TransactionRecord,
    TouchedAddress, EntryRecord};

#[test]
fn tx_info_encoding_is_exact() {
    let bytes = encode_tx_info(1, 2, &None, &Some(String::from("m")));
    assert_eq!(
        bytes,
        vec![
            1, 0, 0, 0, 0, 0, 0, 0, // slot
            2, 0, 0, 0, // index
            0, // no error
            1, 1, 0, 0, 0, 0, 0, 0, 0, b'm', // memo present, length 1
        ]
    );
}

#[test]
fn entries_cell_encoding_is_exact() {
    let entries = vec![EntryRecord {
        num_hashes: 3,
        hash: vec![0xaa, 0xbb],
        num_transactions: 1,
        starting_transaction_index: 5,
    }];
    let bytes = encode_entries_cell(&entries);
    assert_eq!(
        bytes,
        vec![
            1, 0, 0, 0, 0, 0, 0, 0, // one entry
            3, 0, 0, 0, 0, 0, 0, 0, // num_hashes
            2, 0, 0, 0, 0, 0, 0, 0, 0xaa, 0xbb, // hash
            1, 0, 0, 0, 0, 0, 0, 0, // num_transactions
            5, 0, 0, 0, 0, 0, 0, 0, // starting index
        ]
    );
}

fn full_record() -> CosVersionedConfirmedBlockWithEntries {
    let mut rec = CosVersionedConfirmedBlockWithEntries::default();
    rec.transactions.push(TransactionRecord {
        signature: String::from("sig1"),
        err: None,
        addresses: vec![
            TouchedAddress { key: String::from("addr1"), reserved: false },
            TouchedAddress { key: String::from("sysvar"), reserved: true },
        ],
        memo: None,
    });
    rec.transactions.push(TransactionRecord {
        signature: String::from("sig2"),
        err: Some(String::from("oops")),
        addresses: vec![TouchedAddress { key: String::from("addr1"), reserved: false }],
        memo: None,
    });
    rec.entries.push(EntryRecord {
        num_hashes: 1,
        hash: vec![9],
        num_transactions: 2,
        starting_transaction_index: 0,
    });
    rec.executed_transaction_count = 2;
    rec.entry_count = 1;
    rec
}

#[test]
fn slot_cells_cover_the_four_tables() {
    let rec = full_record();
    let cells = build_slot_cells(42, &rec).unwrap();
    // Two tx cells, one shared address group, entries, blocks.
    assert_eq!(cells.len(), 5);
    assert!(matches!(cells[0].table, Table::Tx));
    assert_eq!(cells[0].key, "sig1");
    assert!(matches!(cells[0].ext, CellExt::Bin));
    assert!(matches!(cells[1].table, Table::Tx));
    assert_eq!(cells[1].key, "sig2");
    assert!(matches!(cells[2].table, Table::TxByAddr));
    // The reserved system address contributes no group; the shared address
    // keys its group by the complemented slot.
    assert_eq!(cells[2].key, format!("addr1_{:016x}", !42u64));
    assert!(matches!(cells[2].ext, CellExt::Proto));
    assert!(matches!(cells[3].table, Table::Entries));
    assert_eq!(cells[3].key, format!("{:016x}", 42u64));
    assert!(matches!(cells[4].table, Table::Blocks));
    assert_eq!(cells[4].key, format!("{:016x}", 42u64));
}

#[test]
fn cell_payloads_decompress_to_their_encodings() {
    let rec = full_record();
    let cells = build_slot_cells(42, &rec).unwrap();
    let tx_payload = decompress(&cells[0].data).unwrap();
    assert_eq!(tx_payload, encode_tx_info(42, 0, &None, &None));

    let by_addr = vec![
        TxByAddrInfo {
            signature: String::from("sig1"),
            err: None,
            index: 0,
            memo: None,
            block_time: None,
        },
        TxByAddrInfo {
            signature: String::from("sig2"),
            err: Some(String::from("oops")),
            index: 1,
            memo: None,
            block_time: None,
        },
    ];
    let by_addr_payload = decompress(&cells[2].data).unwrap();
    assert_eq!(by_addr_payload, encode_tx_by_addr_list(&by_addr));

    let entries_payload = decompress(&cells[3].data).unwrap();
    assert_eq!(entries_payload, encode_entries_cell(&rec.entries));
}

#[test]
fn grouping_keeps_first_appearance_order() {
    let mut rec = CosVersionedConfirmedBlockWithEntries::default();
    rec.transactions.push(TransactionRecord {
        signature: String::from("s1"),
        err: None,
        addresses: vec![
            TouchedAddress { key: String::from("b"), reserved: false },
            TouchedAddress { key: String::from("a"), reserved: false },
        ],
        memo: None,
    });
    rec.transactions.push(TransactionRecord {
        signature: String::from("s2"),
        err: None,
        addresses: vec![TouchedAddress { key: String::from("a"), reserved: false }],
        memo: None,
    });
    let cells = build_slot_cells(7, &rec).unwrap();
    let by_addr_keys: Vec<&String> = cells
        .iter()
        .filter(|c| matches!(c.table, Table::TxByAddr))
        .map(|c| &c.key)
        .collect();
    assert_eq!(by_addr_keys.len(), 2);
    assert!(by_addr_keys[0].starts_with("b_"));
    assert!(by_addr_keys[1].starts_with("a_"));
}
