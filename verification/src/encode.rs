//! Canonical byte encodings for the stored table cells.
//!
//! Each table's cell is one self-contained blob: fixed-width little-endian
//! integers, one-byte presence tags for optional fields, and length-prefixed
//! UTF-8 for strings. The committer compresses these blobs before writing
//! them.

use vstd::prelude::*;
use vstd::utf8::encode_utf8;
use crate::bytes::{enc_u64_le, enc_u32_le, put_u64_le, put_u32_le, append_bytes};
use crate::records::{EntryRecord, EntryRecordV, Reward, RewardV, TransactionRecord,
    TransactionRecordV, entry_views, view_opt_string};

verus! {

/// The encoding of a string: its UTF-8 length, then its UTF-8 bytes.
pub open spec fn enc_str(s: Seq<char>) -> Seq<u8> {
    enc_u64_le(encode_utf8(s).len() as u64) + encode_utf8(s)
}

/// The encoding of an optional string: a presence byte, then the string.
pub open spec fn enc_opt_str(o: Option<Seq<char>>) -> Seq<u8> {
    match o {
        None => seq![0u8],
        Some(s) => seq![1u8] + enc_str(s),
    }
}

/// The encoding of an optional 64-bit integer.
pub open spec fn enc_opt_u64(o: Option<u64>) -> Seq<u8> {
    match o {
        None => seq![0u8],
        Some(n) => seq![1u8] + enc_u64_le(n),
    }
}

/// The encoding of an optional signed 64-bit integer, stored in two's
/// complement.
pub open spec fn enc_opt_i64(o: Option<i64>) -> Seq<u8> {
    match o {
        None => seq![0u8],
        Some(n) => seq![1u8] + enc_u64_le(n as u64),
    }
}

/// The encoding of an optional byte.
pub open spec fn enc_opt_u8(o: Option<u8>) -> Seq<u8> {
    match o {
        None => seq![0u8],
        Some(n) => seq![1u8, n],
    }
}

/// Appends the encoding of a string.
pub fn put_str(out: &mut Vec<u8>, s: &String)
    ensures
        final(out)@ == old(out)@ + enc_str(s@),
{
    let bytes = s.as_str().as_bytes_vec();
    put_u64_le(out, bytes.len() as u64);
    append_bytes(out, &bytes);
    assert(out@ =~= old(out)@ + enc_str(s@));
}

/// Appends the encoding of an optional string.
pub fn put_opt_str(out: &mut Vec<u8>, o: &Option<String>)
    ensures
        final(out)@ == old(out)@ + enc_opt_str(view_opt_string(*o)),
{
    match o {
        None => {
            out.push(0u8);
            assert(out@ =~= old(out)@ + enc_opt_str(None));
        },
        Some(s) => {
            out.push(1u8);
            put_str(out, s);
            assert(out@ =~= old(out)@ + enc_opt_str(Some(s@)));
        },
    }
}

/// Appends the encoding of an optional 64-bit integer.
pub fn put_opt_u64(out: &mut Vec<u8>, o: &Option<u64>)
    ensures
        final(out)@ == old(out)@ + enc_opt_u64(*o),
{
    match o {
        None => {
            out.push(0u8);
            assert(out@ =~= old(out)@ + enc_opt_u64(None));
        },
        Some(n) => {
            out.push(1u8);
            put_u64_le(out, *n);
            assert(out@ =~= old(out)@ + enc_opt_u64(Some(*n)));
        },
    }
}

/// Appends the encoding of an optional signed 64-bit integer.
pub fn put_opt_i64(out: &mut Vec<u8>, o: &Option<i64>)
    ensures
        final(out)@ == old(out)@ + enc_opt_i64(*o),
{
    match o {
        None => {
            out.push(0u8);
            assert(out@ =~= old(out)@ + enc_opt_i64(None));
        },
        Some(n) => {
            out.push(1u8);
            put_u64_le(out, #[verifier::truncate] (*n as u64));
            assert(out@ =~= old(out)@ + enc_opt_i64(Some(*n)));
        },
    }
}

/// Appends the encoding of an optional byte.
pub fn put_opt_u8(out: &mut Vec<u8>, o: &Option<u8>)
    ensures
        final(out)@ == old(out)@ + enc_opt_u8(*o),
{
    match o {
        None => {
            out.push(0u8);
            assert(out@ =~= old(out)@ + enc_opt_u8(None));
        },
        Some(n) => {
            out.push(1u8);
            out.push(*n);
            assert(out@ =~= old(out)@ + enc_opt_u8(Some(*n)));
        },
    }
}

/// The `tx` table cell for one transaction: where it sits and how it ended.
pub open spec fn enc_tx_info(
    slot: u64,
    index: u32,
    err: Option<Seq<char>>,
    memo: Option<Seq<char>>,
) -> Seq<u8> {
    enc_u64_le(slot) + enc_u32_le(index) + enc_opt_str(err) + enc_opt_str(memo)
}

/// Encodes the `tx` table cell for one transaction.
pub fn encode_tx_info(slot: u64, index: u32, err: &Option<String>, memo: &Option<String>) -> (r:
    Vec<u8>)
    ensures
        r@ == enc_tx_info(slot, index, view_opt_string(*err), view_opt_string(*memo)),
{
    let mut out: Vec<u8> = Vec::new();
    put_u64_le(&mut out, slot);
    put_u32_le(&mut out, index);
    put_opt_str(&mut out, err);
    put_opt_str(&mut out, memo);
    assert(out@ =~= enc_tx_info(slot, index, view_opt_string(*err), view_opt_string(*memo)));
    out
}

/// One row of the per-address index: which transaction touched the address,
/// with its error, position, memo and block time.
pub struct TxByAddrInfo {
    pub signature: String,
    pub err: Option<String>,
    pub index: u32,
    pub memo: Option<String>,
    pub block_time: Option<i64>,
}

/// The value of a `TxByAddrInfo`.
#[verifier::ext_equal]
pub struct TxByAddrInfoV {
    pub signature: Seq<char>,
    pub err: Option<Seq<char>>,
    pub index: u32,
    pub memo: Option<Seq<char>>,
    pub block_time: Option<i64>,
}

impl View for TxByAddrInfo {
    type V = TxByAddrInfoV;

    open spec fn view(&self) -> TxByAddrInfoV {
        TxByAddrInfoV {
            signature: self.signature@,
            err: view_opt_string(self.err),
            index: self.index,
            memo: view_opt_string(self.memo),
            block_time: self.block_time,
        }
    }
}

/// The views of a per-address row sequence.
pub open spec fn tx_by_addr_views(s: Seq<TxByAddrInfo>) -> Seq<TxByAddrInfoV> {
    s.map_values(|t: TxByAddrInfo| t@)
}

/// The encoding of one per-address row.
pub open spec fn enc_tx_by_addr_info(t: TxByAddrInfoV) -> Seq<u8> {
    enc_str(t.signature) + enc_opt_str(t.err) + enc_u32_le(t.index) + enc_opt_str(t.memo)
        + enc_opt_i64(t.block_time)
}

/// The encoding of a list of per-address rows, without its count prefix.
pub open spec fn enc_tx_by_addr_items(s: Seq<TxByAddrInfoV>) -> Seq<u8>
    decreases s.len(),
{
    if s.len() == 0 {
        Seq::empty()
    } else {
        enc_tx_by_addr_items(s.drop_last()) + enc_tx_by_addr_info(s.last())
    }
}

/// The `tx_by_addr` table cell for one address: a counted list of rows.
pub open spec fn enc_tx_by_addr_list(s: Seq<TxByAddrInfoV>) -> Seq<u8> {
    enc_u64_le(s.len() as u64) + enc_tx_by_addr_items(s)
}

/// Encodes the `tx_by_addr` table cell for one address.
#[verifier::rlimit(40)]
pub fn encode_tx_by_addr_list(items: &Vec<TxByAddrInfo>) -> (r: Vec<u8>)
    ensures
        r@ == enc_tx_by_addr_list(tx_by_addr_views(items@)),
{
    let mut out: Vec<u8> = Vec::new();
    put_u64_le(&mut out, items.len() as u64);
    let mut i: usize = 0;
    while i < items.len()
        invariant
            i <= items@.len(),
            out@ == enc_u64_le(items@.len() as u64) + enc_tx_by_addr_items(
                tx_by_addr_views(items@).take(i as int),
            ),
        decreases items@.len() - i,
    {
        let item = &items[i];
        put_str(&mut out, &item.signature);
        put_opt_str(&mut out, &item.err);
        put_u32_le(&mut out, item.index);
        put_opt_str(&mut out, &item.memo);
        put_opt_i64(&mut out, &item.block_time);
        proof {
            let views = tx_by_addr_views(items@);
            assert(views.take(i + 1).drop_last() =~= views.take(i as int));
            assert(views.take(i + 1).last() == items@[i as int]@);
            assert(out@ =~= enc_u64_le(items@.len() as u64) + enc_tx_by_addr_items(
                views.take(i + 1),
            ));
        }
        i = i + 1;
    }
    proof {
        let views = tx_by_addr_views(items@);
        assert(views.take(views.len() as int) =~= views);
    }
    out
}

/// The encoding of one ledger entry.
pub open spec fn enc_entry(e: EntryRecordV) -> Seq<u8> {
    enc_u64_le(e.num_hashes) + enc_u64_le(e.hash.len() as u64) + e.hash + enc_u64_le(
        e.num_transactions,
    ) + enc_u64_le(e.starting_transaction_index)
}

/// The encoding of a list of entries, without its count prefix.
pub open spec fn enc_entry_items(s: Seq<EntryRecordV>) -> Seq<u8>
    decreases s.len(),
{
    if s.len() == 0 {
        Seq::empty()
    } else {
        enc_entry_items(s.drop_last()) + enc_entry(s.last())
    }
}

/// The `entries` table cell for a slot: a counted list of its entries.
pub open spec fn enc_entries_cell(s: Seq<EntryRecordV>) -> Seq<u8> {
    enc_u64_le(s.len() as u64) + enc_entry_items(s)
}

/// Encodes the `entries` table cell for a slot.
pub fn encode_entries_cell(entries: &Vec<EntryRecord>) -> (r: Vec<u8>)
    ensures
        r@ == enc_entries_cell(entry_views(entries@)),
{
    let mut out: Vec<u8> = Vec::new();
    put_u64_le(&mut out, entries.len() as u64);
    let mut i: usize = 0;
    while i < entries.len()
        invariant
            i <= entries@.len(),
            out@ == enc_u64_le(entries@.len() as u64) + enc_entry_items(
                entry_views(entries@).take(i as int),
            ),
        decreases entries@.len() - i,
    {
        let e = &entries[i];
        put_u64_le(&mut out, e.num_hashes);
        put_u64_le(&mut out, e.hash.len() as u64);
        append_bytes(&mut out, &e.hash);
        put_u64_le(&mut out, e.num_transactions);
        put_u64_le(&mut out, e.starting_transaction_index);
        proof {
            let views = entry_views(entries@);
            assert(views.take(i + 1).drop_last() =~= views.take(i as int));
            assert(views.take(i + 1).last() == entries@[i as int]@);
            assert(out@ =~= enc_u64_le(entries@.len() as u64) + enc_entry_items(
                views.take(i + 1),
            ));
        }
        i = i + 1;
    }
    proof {
        let views = entry_views(entries@);
        assert(views.take(views.len() as int) =~= views);
    }
    out
}

/// The encoding of one reward.
pub open spec fn enc_reward(r: RewardV) -> Seq<u8> {
    enc_str(r.pubkey) + enc_u64_le(r.lamports as u64) + enc_u64_le(r.post_balance) + enc_opt_u8(
        r.commission_percent,
    )
}

/// The encoding of a list of rewards, without its count prefix.
pub open spec fn enc_reward_items(s: Seq<RewardV>) -> Seq<u8>
    decreases s.len(),
{
    if s.len() == 0 {
        Seq::empty()
    } else {
        enc_reward_items(s.drop_last()) + enc_reward(s.last())
    }
}

/// The encoding of one transaction inside the `blocks` cell: its signature,
/// error and memo.
pub open spec fn enc_block_tx(t: TransactionRecordV) -> Seq<u8> {
    enc_str(t.signature) + enc_opt_str(t.err) + enc_opt_str(t.memo)
}

/// The encoding of the transaction list inside the `blocks` cell, without
/// its count prefix.
pub open spec fn enc_block_tx_items(s: Seq<TransactionRecordV>) -> Seq<u8>
    decreases s.len(),
{
    if s.len() == 0 {
        Seq::empty()
    } else {
        enc_block_tx_items(s.drop_last()) + enc_block_tx(s.last())
    }
}

/// Appends the counted reward list.
pub fn put_rewards(out: &mut Vec<u8>, rewards: &Vec<Reward>)
    ensures
        final(out)@ == old(out)@ + enc_u64_le(rewards@.len() as u64) + enc_reward_items(
            rewards@.map_values(|r: Reward| r@),
        ),
{
    put_u64_le(out, rewards.len() as u64);
    let mut i: usize = 0;
    while i < rewards.len()
        invariant
            i <= rewards@.len(),
            out@ == old(out)@ + enc_u64_le(rewards@.len() as u64) + enc_reward_items(
                rewards@.map_values(|r: Reward| r@).take(i as int),
            ),
        decreases rewards@.len() - i,
    {
        let rw = &rewards[i];
        put_str(out, &rw.pubkey);
        put_u64_le(out, #[verifier::truncate] (rw.lamports as u64));
        put_u64_le(out, rw.post_balance);
        put_opt_u8(out, &rw.commission_percent);
        proof {
            let views = rewards@.map_values(|r: Reward| r@);
            assert(views.take(i + 1).drop_last() =~= views.take(i as int));
            assert(views.take(i + 1).last() == rewards@[i as int]@);
            assert(out@ =~= old(out)@ + enc_u64_le(rewards@.len() as u64) + enc_reward_items(
                views.take(i + 1),
            ));
        }
        i = i + 1;
    }
    proof {
        let views = rewards@.map_values(|r: Reward| r@);
        assert(views.take(views.len() as int) =~= views);
    }
}

/// Appends the counted transaction list of the `blocks` cell.
pub fn put_block_txs(out: &mut Vec<u8>, txs: &Vec<TransactionRecord>)
    ensures
        final(out)@ == old(out)@ + enc_u64_le(txs@.len() as u64) + enc_block_tx_items(
            crate::records::tx_views(txs@),
        ),
{
    put_u64_le(out, txs.len() as u64);
    let mut i: usize = 0;
    while i < txs.len()
        invariant
            i <= txs@.len(),
            out@ == old(out)@ + enc_u64_le(txs@.len() as u64) + enc_block_tx_items(
                crate::records::tx_views(txs@).take(i as int),
            ),
        decreases txs@.len() - i,
    {
        let t = &txs[i];
        put_str(out, &t.signature);
        put_opt_str(out, &t.err);
        put_opt_str(out, &t.memo);
        proof {
            let views = crate::records::tx_views(txs@);
            assert(views.take(i + 1).drop_last() =~= views.take(i as int));
            assert(views.take(i + 1).last() == txs@[i as int]@);
            assert(out@ =~= old(out)@ + enc_u64_le(txs@.len() as u64) + enc_block_tx_items(
                views.take(i + 1),
            ));
        }
        i = i + 1;
    }
    proof {
        let views = crate::records::tx_views(txs@);
        assert(views.take(views.len() as int) =~= views);
    }
}

} // verus!
