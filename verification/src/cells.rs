//! Partitioning a finished slot record into storage cells.
//!
//! A slot is stored as four tables: `tx` (one cell per transaction, keyed by
//! signature), `tx_by_addr` (one cell per touched address, keyed by
//! `<address>_<complement-of-slot>`), `entries` and `blocks` (one cell each,
//! keyed by the slot). Every cell's payload is encoded, then compressed with
//! the best codec.

use vstd::prelude::*;
use crate::compression::{compress_best, spec_compress_best};
use crate::encode::{TxByAddrInfo, TxByAddrInfoV, tx_by_addr_views, enc_tx_info, encode_tx_info,
    enc_tx_by_addr_list, encode_tx_by_addr_list, enc_entries_cell, encode_entries_cell, enc_str,
    enc_opt_str, enc_opt_u64, enc_opt_i64, enc_reward_items, enc_block_tx_items, put_str,
    put_opt_str, put_opt_u64, put_opt_i64, put_rewards, put_block_txs};
use crate::bytes::{enc_u64_le, put_u64_le};
use crate::errors::GeyserPluginCosError;
use crate::keys::{spec_slot_key, spec_tx_by_addr_slot_key, slot_to_tx_by_addr_key,
    slot_to_entries_key, slot_to_blocks_key};
use crate::records::{CosVersionedConfirmedBlockWithEntries, SlotRecordV, TransactionRecord,
    TransactionRecordV, TouchedAddressV, tx_views, view_opt_string};

verus! {

/// The four tables a slot is stored under.
#[derive(Clone, Copy, PartialEq, Eq, Structural, Debug)]
pub enum Table {
    Tx,
    TxByAddr,
    Entries,
    Blocks,
}

/// The directory name of a table.
pub open spec fn spec_table_name(t: Table) -> Seq<char> {
    match t {
        Table::Tx => "tx"@,
        Table::TxByAddr => "tx_by_addr"@,
        Table::Entries => "entries"@,
        Table::Blocks => "blocks"@,
    }
}

impl Table {
    /// The directory name of this table.
    pub fn name(&self) -> (r: &'static str)
        ensures
            r@ == spec_table_name(*self),
    {
        match self {
            Table::Tx => "tx",
            Table::TxByAddr => "tx_by_addr",
            Table::Entries => "entries",
            Table::Blocks => "blocks",
        }
    }
}

/// The base encoding a cell's file extension names. The compression inside
/// the blob is self-tagged and not part of the name.
#[derive(Clone, Copy, PartialEq, Eq, Structural, Debug)]
pub enum CellExt {
    Bin,
    Proto,
}

/// The file extension for a base encoding.
pub open spec fn spec_ext_name(e: CellExt) -> Seq<char> {
    match e {
        CellExt::Bin => "bin"@,
        CellExt::Proto => "proto"@,
    }
}

impl CellExt {
    /// The file extension for this base encoding.
    pub fn name(&self) -> (r: &'static str)
        ensures
            r@ == spec_ext_name(*self),
    {
        match self {
            CellExt::Bin => "bin",
            CellExt::Proto => "proto",
        }
    }
}

/// One (key, encoded-and-compressed value) unit to write under a table.
pub struct Cell {
    pub table: Table,
    pub key: String,
    pub ext: CellExt,
    pub data: Vec<u8>,
}

/// The value of a `Cell`.
#[verifier::ext_equal]
pub struct CellV {
    pub table: Table,
    pub key: Seq<char>,
    pub ext: CellExt,
    pub data: Seq<u8>,
}

impl View for Cell {
    type V = CellV;

    open spec fn view(&self) -> CellV {
        CellV { table: self.table, key: self.key@, ext: self.ext, data: self.data@ }
    }
}

/// The views of a cell sequence.
pub open spec fn cell_views(s: Seq<Cell>) -> Seq<CellV> {
    s.map_values(|c: Cell| c@)
}

/// The per-address rows collected for one address, in transaction order.
pub struct AddrGroup {
    pub addr: String,
    pub items: Vec<TxByAddrInfo>,
}

/// The value of an `AddrGroup`.
#[verifier::ext_equal]
pub struct AddrGroupV {
    pub addr: Seq<char>,
    pub items: Seq<TxByAddrInfoV>,
}

impl View for AddrGroup {
    type V = AddrGroupV;

    open spec fn view(&self) -> AddrGroupV {
        AddrGroupV { addr: self.addr@, items: tx_by_addr_views(self.items@) }
    }
}

/// The views of a group sequence.
pub open spec fn group_views(s: Seq<AddrGroup>) -> Seq<AddrGroupV> {
    s.map_values(|g: AddrGroup| g@)
}

/// Adding one row under a key: appended to the key's group if one exists,
/// else a new group at the end. First appearance fixes group order.
pub open spec fn spec_assoc_add(
    groups: Seq<AddrGroupV>,
    key: Seq<char>,
    item: TxByAddrInfoV,
) -> Seq<AddrGroupV>
    decreases groups.len(),
{
    if groups.len() == 0 {
        seq![AddrGroupV { addr: key, items: seq![item] }]
    } else if groups[0].addr == key {
        seq![AddrGroupV { addr: groups[0].addr, items: groups[0].items.push(item) }]
            + groups.drop_first()
    } else {
        seq![groups[0]] + spec_assoc_add(groups.drop_first(), key, item)
    }
}

/// When the key's group sits at position `i`, adding a row updates exactly
/// that group.
proof fn lemma_assoc_add_found(groups: Seq<AddrGroupV>, key: Seq<char>, item: TxByAddrInfoV, i: int)
    requires
        0 <= i < groups.len(),
        groups[i].addr == key,
        forall|j: int| 0 <= j < i ==> #[trigger] groups[j].addr != key,
    ensures
        spec_assoc_add(groups, key, item) == groups.update(
            i,
            AddrGroupV { addr: groups[i].addr, items: groups[i].items.push(item) },
        ),
    decreases i,
{
    if i == 0 {
        assert(spec_assoc_add(groups, key, item) =~= groups.update(
            0,
            AddrGroupV { addr: groups[0].addr, items: groups[0].items.push(item) },
        ));
    } else {
        let rest = groups.drop_first();
        assert(forall|j: int| 0 <= j < rest.len() ==> rest[j] == groups[j + 1]);
        lemma_assoc_add_found(rest, key, item, i - 1);
        assert(seq![groups[0]] + rest.update(
            i - 1,
            AddrGroupV { addr: rest[i - 1].addr, items: rest[i - 1].items.push(item) },
        ) =~= groups.update(i, AddrGroupV { addr: groups[i].addr, items: groups[i].items.push(item) }));
    }
}

/// When no group has the key, adding a row appends a new group.
proof fn lemma_assoc_add_absent(groups: Seq<AddrGroupV>, key: Seq<char>, item: TxByAddrInfoV)
    requires
        forall|j: int| 0 <= j < groups.len() ==> #[trigger] groups[j].addr != key,
    ensures
        spec_assoc_add(groups, key, item) == groups.push(
            AddrGroupV { addr: key, items: seq![item] },
        ),
    decreases groups.len(),
{
    if groups.len() == 0 {
        assert(spec_assoc_add(groups, key, item) =~= groups.push(
            AddrGroupV { addr: key, items: seq![item] },
        ));
    } else {
        let rest = groups.drop_first();
        assert(forall|j: int| 0 <= j < rest.len() ==> rest[j] == groups[j + 1]);
        lemma_assoc_add_absent(rest, key, item);
        assert(seq![groups[0]] + rest.push(AddrGroupV { addr: key, items: seq![item] })
            =~= groups.push(AddrGroupV { addr: key, items: seq![item] }));
    }
}

/// Clones an optional string.
fn clone_opt_string(o: &Option<String>) -> (r: Option<String>)
    ensures
        view_opt_string(r) == view_opt_string(*o),
        r is Some <==> o is Some,
{
    match o {
        None => None,
        Some(s) => Some(s.clone()),
    }
}

/// Appends one row under its address key.
fn assoc_add(groups: &mut Vec<AddrGroup>, key: &String, item: TxByAddrInfo)
    ensures
        group_views(final(groups)@) == spec_assoc_add(group_views(old(groups)@), key@, item@),
{
    let ghost orig = group_views(groups@);
    let mut i: usize = 0;
    let n: usize = groups.len();
    while i < n
        invariant
            i <= n,
            n == groups@.len(),
            groups@ == old(groups)@,
            forall|j: int| 0 <= j < i ==> #[trigger] orig[j].addr != key@,
            orig == group_views(groups@),
        decreases n - i,
    {
        if groups[i].addr == *key {
            let ghost old_item_views = tx_by_addr_views(old(groups)@[i as int].items@);
            let mut g = groups.remove(i);
            let ghost item_spec = item@;
            g.items.push(item);
            proof {
                crate::records::lemma_map_values_push(
                    old(groups)@[i as int].items@,
                    |t: TxByAddrInfo| t@,
                    item,
                );
                assert(g@ =~= AddrGroupV {
                    addr: orig[i as int].addr,
                    items: orig[i as int].items.push(item_spec),
                });
            }
            let ghost gx = g;
            groups.insert(i, g);
            proof {
                assert(groups@ =~= old(groups)@.update(i as int, gx));
                crate::records::lemma_map_values_update(
                    old(groups)@,
                    |x: AddrGroup| x@,
                    i as int,
                    gx,
                );
                lemma_assoc_add_found(orig, key@, item_spec, i as int);
            }
            return ;
        }
        i = i + 1;
    }
    let ghost item_spec = item@;
    let g = AddrGroup { addr: key.clone(), items: vec![item] };
    proof {
        assert(g@.items =~= seq![item_spec]);
        assert(g@ =~= AddrGroupV { addr: key@, items: seq![item_spec] });
    }
    let ghost gx = g;
    groups.push(g);
    proof {
        crate::records::lemma_map_values_push(old(groups)@, |x: AddrGroup| x@, gx);
        lemma_assoc_add_absent(orig, key@, item_spec);
    }
}

/// The per-address row a transaction contributes.
pub open spec fn spec_tx_item(t: TransactionRecordV, idx: int, block_time: Option<i64>)
    -> TxByAddrInfoV {
    TxByAddrInfoV {
        signature: t.signature,
        err: t.err,
        index: idx as u32,
        memo: t.memo,
        block_time,
    }
}

/// Folding one transaction's touched addresses into the groups, skipping
/// reserved system addresses.
pub open spec fn spec_add_tx_addresses(
    groups: Seq<AddrGroupV>,
    addrs: Seq<TouchedAddressV>,
    item: TxByAddrInfoV,
) -> Seq<AddrGroupV>
    decreases addrs.len(),
{
    if addrs.len() == 0 {
        groups
    } else {
        let g = if addrs[0].reserved {
            groups
        } else {
            spec_assoc_add(groups, addrs[0].key, item)
        };
        spec_add_tx_addresses(g, addrs.drop_first(), item)
    }
}

/// Folding a list of (addresses, row) pairs into the groups, in order.
pub open spec fn spec_group_pairs(
    groups: Seq<AddrGroupV>,
    pairs: Seq<(Seq<TouchedAddressV>, TxByAddrInfoV)>,
) -> Seq<AddrGroupV>
    decreases pairs.len(),
{
    if pairs.len() == 0 {
        groups
    } else {
        spec_group_pairs(
            spec_add_tx_addresses(groups, pairs[0].0, pairs[0].1),
            pairs.drop_first(),
        )
    }
}

/// The (addresses, row) pair each transaction contributes, in block order.
pub open spec fn spec_tx_pairs(txs: Seq<TransactionRecordV>, block_time: Option<i64>) -> Seq<
    (Seq<TouchedAddressV>, TxByAddrInfoV),
> {
    Seq::new(txs.len(), |i: int| (txs[i].addresses, spec_tx_item(txs[i], i, block_time)))
}

/// The per-address index of a block: for every non-reserved touched
/// address, the rows of the transactions that touched it, in block order;
/// addresses ordered by first appearance.
pub open spec fn spec_group_by_addr(txs: Seq<TransactionRecordV>, block_time: Option<i64>) -> Seq<
    AddrGroupV,
> {
    spec_group_pairs(Seq::empty(), spec_tx_pairs(txs, block_time))
}

/// Builds the per-address index of a block.
pub fn group_by_addr(txs: &Vec<TransactionRecord>, block_time: &Option<i64>) -> (r: Vec<AddrGroup>)
    requires
        txs@.len() <= u32::MAX,
    ensures
        group_views(r@) == spec_group_by_addr(tx_views(txs@), *block_time),
{
    let ghost pairs = spec_tx_pairs(tx_views(txs@), *block_time);
    let mut groups: Vec<AddrGroup> = Vec::new();
    proof {
        assert(group_views(groups@) =~= Seq::<AddrGroupV>::empty());
        assert(pairs.skip(0) =~= pairs);
    }
    let mut i: usize = 0;
    while i < txs.len()
        invariant
            i <= txs@.len(),
            txs@.len() <= u32::MAX,
            pairs == spec_tx_pairs(tx_views(txs@), *block_time),
            spec_group_pairs(group_views(groups@), pairs.skip(i as int)) == spec_group_pairs(
                Seq::empty(),
                pairs,
            ),
        decreases txs@.len() - i,
    {
        let tx = &txs[i];
        let item_sig = tx.signature.clone();
        let item_err = clone_opt_string(&tx.err);
        let item_memo = clone_opt_string(&tx.memo);
        let ghost txv = tx_views(txs@)[i as int];
        let ghost item_v = spec_tx_item(txv, i as int, *block_time);
        let ghost groups_at_tx = group_views(groups@);
        proof {
            assert(txv == txs@[i as int]@);
            assert(txv.addresses.skip(0) =~= txv.addresses);
        }
        let mut j: usize = 0;
        let n_addrs: usize = tx.addresses.len();
        while j < n_addrs
            invariant
                j <= n_addrs,
                i < txs@.len(),
                txs@.len() <= u32::MAX,
                txv == txs@[i as int]@,
                n_addrs == txv.addresses.len(),
                tx.addresses@ == txs@[i as int].addresses@,
                item_sig@ == txv.signature,
                view_opt_string(item_err) == txv.err,
                view_opt_string(item_memo) == txv.memo,
                item_v == spec_tx_item(txv, i as int, *block_time),
                spec_add_tx_addresses(group_views(groups@), txv.addresses.skip(j as int), item_v)
                    == spec_add_tx_addresses(groups_at_tx, txv.addresses, item_v),
            decreases n_addrs - j,
        {
            let addr = &tx.addresses[j];
            proof {
                assert(txv.addresses.skip(j as int).drop_first() =~= txv.addresses.skip(j + 1));
                assert(txv.addresses.skip(j as int)[0] == txv.addresses[j as int]);
                assert(txv.addresses[j as int] == addr@);
            }
            if !addr.reserved {
                let item = TxByAddrInfo {
                    signature: item_sig.clone(),
                    err: clone_opt_string(&item_err),
                    index: i as u32,
                    memo: clone_opt_string(&item_memo),
                    block_time: *block_time,
                };
                proof {
                    assert(item@ =~= item_v);
                }
                assoc_add(&mut groups, &addr.key, item);
            }
            j = j + 1;
        }
        proof {
            assert(txv.addresses.skip(n_addrs as int) =~= Seq::<TouchedAddressV>::empty());
            assert(pairs.skip(i as int)[0] == pairs[i as int]);
            assert(pairs.skip(i as int).drop_first() =~= pairs.skip(i + 1));
            assert(pairs[i as int].0 == txv.addresses);
            assert(pairs[i as int].1 == item_v);
        }
        i = i + 1;
    }
    proof {
        assert(pairs.skip(txs@.len() as int) =~= Seq::<
            (Seq<TouchedAddressV>, TxByAddrInfoV),
        >::empty());
    }
    groups
}

/// The `blocks` table cell: the slot's full metadata and transaction list.
pub open spec fn enc_block_cell(r: SlotRecordV) -> Seq<u8> {
    enc_str(r.previous_blockhash) + enc_str(r.blockhash) + enc_u64_le(r.parent_slot) + enc_u64_le(
        r.rewards.len() as u64,
    ) + enc_reward_items(r.rewards) + enc_opt_i64(r.block_time) + enc_opt_u64(r.block_height)
        + enc_u64_le(r.executed_transaction_count) + enc_u64_le(r.entry_count) + enc_u64_le(
        r.transactions.len() as u64,
    ) + enc_block_tx_items(r.transactions)
}

/// Encodes the `blocks` table cell for a slot.
pub fn encode_block_cell(rec: &CosVersionedConfirmedBlockWithEntries) -> (r: Vec<u8>)
    ensures
        r@ == enc_block_cell(rec@),
{
    let mut out: Vec<u8> = Vec::new();
    put_str(&mut out, &rec.previous_blockhash);
    put_str(&mut out, &rec.blockhash);
    put_u64_le(&mut out, rec.parent_slot);
    put_rewards(&mut out, &rec.rewards);
    put_opt_i64(&mut out, &rec.block_time);
    put_opt_u64(&mut out, &rec.block_height);
    put_u64_le(&mut out, rec.executed_transaction_count);
    put_u64_le(&mut out, rec.entry_count);
    put_block_txs(&mut out, &rec.transactions);
    assert(out@ =~= enc_block_cell(rec@));
    out
}

/// The `tx` table cells of a block: one per transaction, keyed by its
/// signature, in block order.
pub open spec fn spec_tx_cells(slot: u64, txs: Seq<TransactionRecordV>) -> Seq<CellV> {
    Seq::new(
        txs.len(),
        |i: int|
            CellV {
                table: Table::Tx,
                key: txs[i].signature,
                ext: CellExt::Bin,
                data: spec_compress_best(
                    enc_tx_info(slot, i as u32, txs[i].err, txs[i].memo),
                ),
            },
    )
}

/// The `tx_by_addr` table cells of a block: one per grouped address, keyed
/// by the address and the complemented slot.
pub open spec fn spec_tx_by_addr_cells(slot: u64, groups: Seq<AddrGroupV>) -> Seq<CellV> {
    Seq::new(
        groups.len(),
        |i: int|
            CellV {
                table: Table::TxByAddr,
                key: groups[i].addr + seq!['_'] + spec_tx_by_addr_slot_key(slot),
                ext: CellExt::Proto,
                data: spec_compress_best(enc_tx_by_addr_list(groups[i].items)),
            },
    )
}

/// The `entries` table cells of a block: one, unless the slot has no
/// entries.
pub open spec fn spec_entries_cells(slot: u64, r: SlotRecordV) -> Seq<CellV> {
    if r.entries.len() == 0 {
        Seq::empty()
    } else {
        seq![
            CellV {
                table: Table::Entries,
                key: spec_slot_key(slot),
                ext: CellExt::Proto,
                data: spec_compress_best(enc_entries_cell(r.entries)),
            },
        ]
    }
}

/// Every cell a slot's record is stored as: its `tx` cells, its
/// `tx_by_addr` cells, its `entries` cell when it has entries, and its
/// `blocks` cell, in that order.
pub open spec fn spec_slot_cells(slot: u64, r: SlotRecordV) -> Seq<CellV> {
    spec_tx_cells(slot, r.transactions) + spec_tx_by_addr_cells(
        slot,
        spec_group_by_addr(r.transactions, r.block_time),
    ) + spec_entries_cells(slot, r) + seq![
        CellV {
            table: Table::Blocks,
            key: spec_slot_key(slot),
            ext: CellExt::Proto,
            data: spec_compress_best(enc_block_cell(r)),
        },
    ]
}

/// Partitions a slot's record into its cells, encoding and compressing each
/// payload. Fails only when a compressor fails.
pub fn build_slot_cells(slot: u64, rec: &CosVersionedConfirmedBlockWithEntries) -> (r: Result<
    Vec<Cell>,
    GeyserPluginCosError,
>)
    requires
        rec.transactions@.len() <= u32::MAX,
    ensures
        r matches Ok(cells) ==> cell_views(cells@) == spec_slot_cells(slot, rec@),
        r matches Err(e) ==> e is InternalError,
{
    let ghost txsv = tx_views(rec.transactions@);
    let mut cells: Vec<Cell> = Vec::new();
    proof {
        assert(cell_views(cells@) =~= spec_tx_cells(slot, txsv).take(0));
    }
    let mut i: usize = 0;
    while i < rec.transactions.len()
        invariant
            i <= rec.transactions@.len(),
            rec.transactions@.len() <= u32::MAX,
            txsv == tx_views(rec.transactions@),
            cell_views(cells@) == spec_tx_cells(slot, txsv).take(i as int),
        decreases rec.transactions@.len() - i,
    {
        let tx = &rec.transactions[i];
        let payload = encode_tx_info(slot, i as u32, &tx.err, &tx.memo);
        let data = compress_best(&payload)?;
        let cell = Cell { table: Table::Tx, key: tx.signature.clone(), ext: CellExt::Bin, data };
        proof {
            assert(cell@ =~= spec_tx_cells(slot, txsv)[i as int]);
        }
        let ghost cx = cell;
        let ghost pre_cells = cells@;
        cells.push(cell);
        proof {
            crate::records::lemma_map_values_push(pre_cells, |c: Cell| c@, cx);
            assert(cell_views(cells@) =~= spec_tx_cells(slot, txsv).take(i + 1));
        }
        i = i + 1;
    }
    proof {
        assert(spec_tx_cells(slot, txsv).take(txsv.len() as int) =~= spec_tx_cells(slot, txsv));
    }
    let groups = group_by_addr(&rec.transactions, &rec.block_time);
    let ghost groupsv = spec_group_by_addr(txsv, rec.block_time);
    let mut i: usize = 0;
    while i < groups.len()
        invariant
            i <= groups@.len(),
            group_views(groups@) == groupsv,
            groupsv == spec_group_by_addr(txsv, rec.block_time),
            txsv == tx_views(rec.transactions@),
            cell_views(cells@) == spec_tx_cells(slot, txsv) + spec_tx_by_addr_cells(
                slot,
                groupsv,
            ).take(i as int),
        decreases groups@.len() - i,
    {
        let g = &groups[i];
        let mut key = g.addr.clone();
        key.append("_");
        key.append(slot_to_tx_by_addr_key(slot).as_str());
        proof {
            reveal_strlit("_");
            assert(key@ =~= groupsv[i as int].addr + seq!['_'] + spec_tx_by_addr_slot_key(slot));
        }
        let payload = encode_tx_by_addr_list(&g.items);
        let data = compress_best(&payload)?;
        let cell = Cell { table: Table::TxByAddr, key, ext: CellExt::Proto, data };
        proof {
            assert(cell@ =~= spec_tx_by_addr_cells(slot, groupsv)[i as int]);
        }
        let ghost cx = cell;
        let ghost pre_cells = cells@;
        cells.push(cell);
        proof {
            crate::records::lemma_map_values_push(pre_cells, |c: Cell| c@, cx);
            assert(cell_views(cells@) =~= spec_tx_cells(slot, txsv) + spec_tx_by_addr_cells(
                slot,
                groupsv,
            ).take(i + 1));
        }
        i = i + 1;
    }
    proof {
        assert(spec_tx_by_addr_cells(slot, groupsv).take(groupsv.len() as int)
            =~= spec_tx_by_addr_cells(slot, groupsv));
    }
    if rec.entries.len() > 0 {
        let payload = encode_entries_cell(&rec.entries);
        let data = compress_best(&payload)?;
        let cell = Cell {
            table: Table::Entries,
            key: slot_to_entries_key(slot),
            ext: CellExt::Proto,
            data,
        };
        let ghost cx = cell;
        let ghost pre_cells = cells@;
        cells.push(cell);
        proof {
            crate::records::lemma_map_values_push(pre_cells, |c: Cell| c@, cx);
        }
    }
    let payload = encode_block_cell(rec);
    let data = compress_best(&payload)?;
    let cell = Cell {
        table: Table::Blocks,
        key: slot_to_blocks_key(slot),
        ext: CellExt::Proto,
        data,
    };
    let ghost cx = cell;
    let ghost pre_cells = cells@;
    cells.push(cell);
    proof {
        crate::records::lemma_map_values_push(pre_cells, |c: Cell| c@, cx);
        assert(cell_views(cells@) =~= spec_slot_cells(slot, rec@));
    }
    Ok(cells)
}

} // verus!
