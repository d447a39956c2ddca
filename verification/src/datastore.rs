//! The slot accumulator: an in-memory map from slot number to its growing
//! record.
//!
//! Records are created lazily on the first event for a slot and removed when
//! the slot is finalized. The accumulator also enforces the first-valid-slot
//! boundary: the first slot ever observed is rounded up to the next range
//! boundary, and anything below that is rejected, so a partially-observed
//! leading range is never persisted after a restart mid-range.

use vstd::prelude::*;
use std::collections::HashMap;
use crate::config::GeyserPluginCosConfig;
use crate::errors::GeyserPluginCosError;
use crate::records::{CosVersionedConfirmedBlockWithEntries, SlotRecordV, TransactionRecord,
    TransactionRecordV, EntryRecord, EntryRecordV, BlockInfoEvent, BlockInfoEventV, SlotStatus,
    spec_empty_record, spec_sparse_set, spec_placeholder_tx, spec_placeholder_entry,
    grow_and_set_transaction, grow_and_set_entry};

verus! {

broadcast use vstd::std_specs::hash::group_hash_axioms;

/// The smallest multiple of `range` at or above `slot`.
pub open spec fn spec_round_up_to_range(slot: u64, range: u64) -> int
    recommends
        range > 0,
{
    if slot % range == 0 {
        slot as int
    } else {
        slot + (range - slot % range)
    }
}

/// Applying a transaction to a cache: the slot's record (a fresh one if the
/// slot is new) gets the transaction placed at its index.
pub open spec fn spec_apply_transaction(
    m: Map<u64, SlotRecordV>,
    slot: u64,
    index: int,
    tx: TransactionRecordV,
) -> Map<u64, SlotRecordV> {
    let base = if m.contains_key(slot) {
        m[slot]
    } else {
        spec_empty_record()
    };
    m.insert(
        slot,
        SlotRecordV {
            transactions: spec_sparse_set(base.transactions, spec_placeholder_tx(), index, tx),
            ..base
        },
    )
}

/// Applying an entry to a cache: the slot's record gets the entry placed at
/// its index.
pub open spec fn spec_apply_entry(
    m: Map<u64, SlotRecordV>,
    slot: u64,
    index: int,
    e: EntryRecordV,
) -> Map<u64, SlotRecordV> {
    let base = if m.contains_key(slot) {
        m[slot]
    } else {
        spec_empty_record()
    };
    m.insert(
        slot,
        SlotRecordV {
            entries: spec_sparse_set(base.entries, spec_placeholder_entry(), index, e),
            ..base
        },
    )
}

/// Applying block metadata to a cache: the slot's record takes the header
/// fields and the expected counts; its sequences and status stay.
pub open spec fn spec_apply_block_info(m: Map<u64, SlotRecordV>, ev: BlockInfoEventV) -> Map<
    u64,
    SlotRecordV,
> {
    let base = if m.contains_key(ev.slot) {
        m[ev.slot]
    } else {
        spec_empty_record()
    };
    m.insert(
        ev.slot,
        SlotRecordV {
            previous_blockhash: ev.parent_blockhash,
            blockhash: ev.blockhash,
            parent_slot: ev.parent_slot,
            rewards: ev.rewards,
            block_time: ev.block_time,
            block_height: ev.block_height,
            executed_transaction_count: ev.executed_transaction_count,
            entry_count: ev.entry_count,
            ..base
        },
    )
}

/// Applying a status observation to a cache.
pub open spec fn spec_apply_status(m: Map<u64, SlotRecordV>, slot: u64, status: SlotStatus) -> Map<
    u64,
    SlotRecordV,
> {
    let base = if m.contains_key(slot) {
        m[slot]
    } else {
        spec_empty_record()
    };
    m.insert(slot, SlotRecordV { slot_status: status, ..base })
}

/// A run of transaction placements on one slot, applied in order.
pub open spec fn spec_apply_transaction_ops(
    m: Map<u64, SlotRecordV>,
    slot: u64,
    ops: Seq<(int, TransactionRecordV)>,
) -> Map<u64, SlotRecordV>
    decreases ops.len(),
{
    if ops.len() == 0 {
        m
    } else {
        spec_apply_transaction(
            spec_apply_transaction_ops(m, slot, ops.drop_last()),
            slot,
            ops.last().0,
            ops.last().1,
        )
    }
}

/// A run of entry placements on one slot, applied in order.
pub open spec fn spec_apply_entry_ops(
    m: Map<u64, SlotRecordV>,
    slot: u64,
    ops: Seq<(int, EntryRecordV)>,
) -> Map<u64, SlotRecordV>
    decreases ops.len(),
{
    if ops.len() == 0 {
        m
    } else {
        spec_apply_entry(
            spec_apply_entry_ops(m, slot, ops.drop_last()),
            slot,
            ops.last().0,
            ops.last().1,
        )
    }
}

/// A run of transaction placements touches only the slot's transaction
/// sequence: the result is the slot's base record with the placements
/// folded into it.
proof fn lemma_apply_transaction_ops_as_record(
    m: Map<u64, SlotRecordV>,
    slot: u64,
    ops: Seq<(int, TransactionRecordV)>,
)
    requires
        ops.len() >= 1,
        forall|k: int| 0 <= k < ops.len() ==> 0 <= (#[trigger] ops[k]).0,
    ensures
        ({
            let base = if m.contains_key(slot) {
                m[slot]
            } else {
                spec_empty_record()
            };
            spec_apply_transaction_ops(m, slot, ops) == m.insert(
                slot,
                SlotRecordV {
                    transactions: crate::records::spec_apply_ops(
                        base.transactions,
                        spec_placeholder_tx(),
                        ops,
                    ),
                    ..base
                },
            )
        }),
    decreases ops.len(),
{
    let base = if m.contains_key(slot) {
        m[slot]
    } else {
        spec_empty_record()
    };
    if ops.len() == 1 {
        assert(ops.drop_last().len() == 0);
        assert(crate::records::spec_apply_ops(
            base.transactions,
            spec_placeholder_tx(),
            ops.drop_last(),
        ) == base.transactions);
        assert(spec_apply_transaction_ops(m, slot, ops.drop_last()) == m);
        assert(spec_apply_transaction_ops(m, slot, ops) =~= m.insert(
            slot,
            SlotRecordV {
                transactions: crate::records::spec_apply_ops(
                    base.transactions,
                    spec_placeholder_tx(),
                    ops,
                ),
                ..base
            },
        ));
    } else {
        let prev = ops.drop_last();
        assert(forall|k: int| 0 <= k < prev.len() ==> prev[k] == ops[k]);
        lemma_apply_transaction_ops_as_record(m, slot, prev);
        let rec_prev = SlotRecordV {
            transactions: crate::records::spec_apply_ops(
                base.transactions,
                spec_placeholder_tx(),
                prev,
            ),
            ..base
        };
        assert(spec_apply_transaction_ops(m, slot, prev).contains_key(slot));
        assert(spec_apply_transaction_ops(m, slot, prev)[slot] == rec_prev);
        assert(spec_apply_transaction_ops(m, slot, ops) =~= m.insert(
            slot,
            SlotRecordV {
                transactions: crate::records::spec_apply_ops(
                    base.transactions,
                    spec_placeholder_tx(),
                    ops,
                ),
                ..base
            },
        ));
    }
}

/// A run of entry placements touches only the slot's entry sequence.
proof fn lemma_apply_entry_ops_as_record(
    m: Map<u64, SlotRecordV>,
    slot: u64,
    ops: Seq<(int, EntryRecordV)>,
)
    requires
        ops.len() >= 1,
        forall|k: int| 0 <= k < ops.len() ==> 0 <= (#[trigger] ops[k]).0,
    ensures
        ({
            let base = if m.contains_key(slot) {
                m[slot]
            } else {
                spec_empty_record()
            };
            spec_apply_entry_ops(m, slot, ops) == m.insert(
                slot,
                SlotRecordV {
                    entries: crate::records::spec_apply_ops(
                        base.entries,
                        spec_placeholder_entry(),
                        ops,
                    ),
                    ..base
                },
            )
        }),
    decreases ops.len(),
{
    let base = if m.contains_key(slot) {
        m[slot]
    } else {
        spec_empty_record()
    };
    if ops.len() == 1 {
        assert(ops.drop_last().len() == 0);
        assert(crate::records::spec_apply_ops(
            base.entries,
            spec_placeholder_entry(),
            ops.drop_last(),
        ) == base.entries);
        assert(spec_apply_entry_ops(m, slot, ops.drop_last()) == m);
        assert(spec_apply_entry_ops(m, slot, ops) =~= m.insert(
            slot,
            SlotRecordV {
                entries: crate::records::spec_apply_ops(
                    base.entries,
                    spec_placeholder_entry(),
                    ops,
                ),
                ..base
            },
        ));
    } else {
        let prev = ops.drop_last();
        assert(forall|k: int| 0 <= k < prev.len() ==> prev[k] == ops[k]);
        lemma_apply_entry_ops_as_record(m, slot, prev);
        let rec_prev = SlotRecordV {
            entries: crate::records::spec_apply_ops(
                base.entries,
                spec_placeholder_entry(),
                prev,
            ),
            ..base
        };
        assert(spec_apply_entry_ops(m, slot, prev).contains_key(slot));
        assert(spec_apply_entry_ops(m, slot, prev)[slot] == rec_prev);
        assert(spec_apply_entry_ops(m, slot, ops) =~= m.insert(
            slot,
            SlotRecordV {
                entries: crate::records::spec_apply_ops(
                    base.entries,
                    spec_placeholder_entry(),
                    ops,
                ),
                ..base
            },
        ));
    }
}

/// Order-independence of assembly at the accumulator: delivering a fresh
/// slot's transactions — one per position, positions covering the whole
/// block — in any order leaves the cache in the same state, holding each
/// transaction at its own position.
pub proof fn lemma_apply_transactions_order_independent(
    m: Map<u64, SlotRecordV>,
    slot: u64,
    ops1: Seq<(int, TransactionRecordV)>,
    ops2: Seq<(int, TransactionRecordV)>,
    n: int,
)
    requires
        n >= 1,
        ops1.len() == n,
        ops2.len() == n,
        forall|k: int| 0 <= k < n ==> 0 <= (#[trigger] ops1[k]).0 < n,
        forall|k: int| 0 <= k < n ==> 0 <= (#[trigger] ops2[k]).0 < n,
        forall|k1: int, k2: int|
            0 <= k1 < n && 0 <= k2 < n && k1 != k2 ==> (#[trigger] ops1[k1]).0 != (
            #[trigger] ops1[k2]).0,
        forall|k1: int, k2: int|
            0 <= k1 < n && 0 <= k2 < n && k1 != k2 ==> (#[trigger] ops2[k1]).0 != (
            #[trigger] ops2[k2]).0,
        forall|j: int| 0 <= j < n ==> #[trigger] crate::records::spec_covers(ops1, j),
        ops1.to_multiset() == ops2.to_multiset(),
        m.contains_key(slot) ==> m[slot].transactions.len() == 0,
    ensures
        spec_apply_transaction_ops(m, slot, ops1) == spec_apply_transaction_ops(m, slot, ops2),
        spec_apply_transaction_ops(m, slot, ops1).contains_key(slot),
        spec_apply_transaction_ops(m, slot, ops1)[slot].transactions.len() == n,
        forall|k: int|
            0 <= k < n ==> #[trigger] spec_apply_transaction_ops(
                m,
                slot,
                ops1,
            )[slot].transactions[ops1[k].0] == ops1[k].1,
{
    let base = if m.contains_key(slot) {
        m[slot]
    } else {
        spec_empty_record()
    };
    assert(base.transactions =~= Seq::<TransactionRecordV>::empty());
    lemma_apply_transaction_ops_as_record(m, slot, ops1);
    lemma_apply_transaction_ops_as_record(m, slot, ops2);
    crate::records::lemma_assembly_order_independence(spec_placeholder_tx(), ops1, ops2, n);
}

/// Order-independence of assembly for entries: the same law, on the entry
/// sequence.
pub proof fn lemma_apply_entries_order_independent(
    m: Map<u64, SlotRecordV>,
    slot: u64,
    ops1: Seq<(int, EntryRecordV)>,
    ops2: Seq<(int, EntryRecordV)>,
    n: int,
)
    requires
        n >= 1,
        ops1.len() == n,
        ops2.len() == n,
        forall|k: int| 0 <= k < n ==> 0 <= (#[trigger] ops1[k]).0 < n,
        forall|k: int| 0 <= k < n ==> 0 <= (#[trigger] ops2[k]).0 < n,
        forall|k1: int, k2: int|
            0 <= k1 < n && 0 <= k2 < n && k1 != k2 ==> (#[trigger] ops1[k1]).0 != (
            #[trigger] ops1[k2]).0,
        forall|k1: int, k2: int|
            0 <= k1 < n && 0 <= k2 < n && k1 != k2 ==> (#[trigger] ops2[k1]).0 != (
            #[trigger] ops2[k2]).0,
        forall|j: int| 0 <= j < n ==> #[trigger] crate::records::spec_covers(ops1, j),
        ops1.to_multiset() == ops2.to_multiset(),
        m.contains_key(slot) ==> m[slot].entries.len() == 0,
    ensures
        spec_apply_entry_ops(m, slot, ops1) == spec_apply_entry_ops(m, slot, ops2),
        spec_apply_entry_ops(m, slot, ops1).contains_key(slot),
        spec_apply_entry_ops(m, slot, ops1)[slot].entries.len() == n,
        forall|k: int|
            0 <= k < n ==> #[trigger] spec_apply_entry_ops(
                m,
                slot,
                ops1,
            )[slot].entries[ops1[k].0] == ops1[k].1,
{
    let base = if m.contains_key(slot) {
        m[slot]
    } else {
        spec_empty_record()
    };
    assert(base.entries =~= Seq::<EntryRecordV>::empty());
    lemma_apply_entry_ops_as_record(m, slot, ops1);
    lemma_apply_entry_ops_as_record(m, slot, ops2);
    crate::records::lemma_assembly_order_independence(spec_placeholder_entry(), ops1, ops2, n);
}

/// The in-memory accumulator for slots under assembly.
pub struct Datastore {
    /// The record of each slot still being accumulated.
    cache: HashMap<u64, CosVersionedConfirmedBlockWithEntries>,
    /// The first slot this process accepts, once known.
    first_slot: Option<u64>,
    /// The number of slots in each range.
    slot_range: u64,
}

impl Datastore {
    /// The accumulator's structural invariant: a positive range size.
    pub closed spec fn wf(&self) -> bool {
        self.slot_range >= 1
    }

    /// The accumulated records, by slot.
    pub closed spec fn spec_cache(&self) -> Map<u64, SlotRecordV> {
        Map::new(
            |s: u64| self.cache@.contains_key(s),
            |s: u64| self.cache@[s]@,
        )
    }

    /// The first valid slot, once it is known.
    pub closed spec fn spec_first_slot(&self) -> Option<u64> {
        self.first_slot
    }

    /// The configured range size.
    pub closed spec fn spec_slot_range(&self) -> u64 {
        self.slot_range
    }

    /// A fresh accumulator for the configured range size.
    pub fn new(config: &GeyserPluginCosConfig) -> (r: Self)
        requires
            config.slot_range >= 1,
        ensures
            r.wf(),
            r.spec_cache() == Map::<u64, SlotRecordV>::empty(),
            r.spec_first_slot() is None,
            r.spec_slot_range() == config.slot_range,
    {
        let r = Datastore { cache: HashMap::new(), first_slot: None, slot_range: config.slot_range };
        proof {
            assert(r.spec_cache() =~= Map::<u64, SlotRecordV>::empty());
        }
        r
    }

    /// Fixes the first valid slot on the first call — the observed slot
    /// rounded up to the next range boundary — and thereafter rejects, as a
    /// non-fatal skip, every slot below that boundary.
    pub fn check_first_slot(&mut self, slot: u64) -> (r: Result<(), GeyserPluginCosError>)
        requires
            old(self).wf(),
            old(self).spec_first_slot() is None ==> spec_round_up_to_range(
                slot,
                old(self).spec_slot_range(),
            ) <= u64::MAX,
        ensures
            final(self).wf(),
            final(self).spec_slot_range() == old(self).spec_slot_range(),
            final(self).spec_cache() == old(self).spec_cache(),
            old(self).spec_first_slot() is None ==> final(self).spec_first_slot() == Some(
                spec_round_up_to_range(slot, old(self).spec_slot_range()) as u64,
            ),
            old(self).spec_first_slot() is Some ==> final(self).spec_first_slot() == old(
                self,
            ).spec_first_slot(),
            r is Ok <==> (final(self).spec_first_slot() matches Some(f) && f <= slot),
            r matches Err(e) ==> e is SkipIncompleteBlockRange,
    {
        if self.first_slot.is_none() {
            let rem = slot % self.slot_range;
            let first = if rem == 0 {
                slot
            } else {
                slot + (self.slot_range - rem)
            };
            self.first_slot = Some(first);
        }
        match self.first_slot {
            Some(first) => {
                if first > slot {
                    Err(GeyserPluginCosError::SkipIncompleteBlockRange)
                } else {
                    Ok(())
                }
            },
            None => {
                proof {
                    assert(false);
                }
                Ok(())
            },
        }
    }

    /// Makes sure the slot has a record, creating the default one if this is
    /// the slot's first event.
    pub fn get_or_create(&mut self, slot: u64)
        requires
            old(self).wf(),
        ensures
            final(self).wf(),
            final(self).spec_slot_range() == old(self).spec_slot_range(),
            final(self).spec_first_slot() == old(self).spec_first_slot(),
            old(self).spec_cache().contains_key(slot) ==> final(self).spec_cache() == old(
                self,
            ).spec_cache(),
            !old(self).spec_cache().contains_key(slot) ==> final(self).spec_cache() == old(
                self,
            ).spec_cache().insert(slot, spec_empty_record()),
            final(self).spec_cache().contains_key(slot),
    {
        if !self.cache.contains_key(&slot) {
            self.cache.insert(slot, CosVersionedConfirmedBlockWithEntries::default());
            assert(self.spec_cache() =~= old(self).spec_cache().insert(
                slot,
                spec_empty_record(),
            ));
        } else {
            assert(self.spec_cache() =~= old(self).spec_cache());
        }
    }

    /// Places a transaction at its index in the slot's record, creating the
    /// record if the slot is new and filling index gaps with placeholders.
    pub fn apply_transaction(&mut self, slot: u64, index: usize, tx: TransactionRecord)
        requires
            old(self).wf(),
        ensures
            final(self).wf(),
            final(self).spec_slot_range() == old(self).spec_slot_range(),
            final(self).spec_first_slot() == old(self).spec_first_slot(),
            final(self).spec_cache() == spec_apply_transaction(
                old(self).spec_cache(),
                slot,
                index as int,
                tx@,
            ),
    {
        let mut rec = match self.cache.remove(&slot) {
            Some(r) => r,
            None => CosVersionedConfirmedBlockWithEntries::default(),
        };
        grow_and_set_transaction(&mut rec.transactions, index, tx);
        self.cache.insert(slot, rec);
        assert(self.spec_cache() =~= spec_apply_transaction(
            old(self).spec_cache(),
            slot,
            index as int,
            tx@,
        ));
    }

    /// Places an entry at its index in the slot's record, creating the
    /// record if the slot is new and filling index gaps with placeholders.
    pub fn apply_entry(&mut self, slot: u64, index: usize, e: EntryRecord)
        requires
            old(self).wf(),
        ensures
            final(self).wf(),
            final(self).spec_slot_range() == old(self).spec_slot_range(),
            final(self).spec_first_slot() == old(self).spec_first_slot(),
            final(self).spec_cache() == spec_apply_entry(
                old(self).spec_cache(),
                slot,
                index as int,
                e@,
            ),
    {
        let mut rec = match self.cache.remove(&slot) {
            Some(r) => r,
            None => CosVersionedConfirmedBlockWithEntries::default(),
        };
        grow_and_set_entry(&mut rec.entries, index, e);
        self.cache.insert(slot, rec);
        assert(self.spec_cache() =~= spec_apply_entry(
            old(self).spec_cache(),
            slot,
            index as int,
            e@,
        ));
    }

    /// Overwrites the slot's block metadata and expected counts with what
    /// the notification carries.
    pub fn apply_block_info(&mut self, ev: BlockInfoEvent)
        requires
            old(self).wf(),
        ensures
            final(self).wf(),
            final(self).spec_slot_range() == old(self).spec_slot_range(),
            final(self).spec_first_slot() == old(self).spec_first_slot(),
            final(self).spec_cache() == spec_apply_block_info(old(self).spec_cache(), ev@),
    {
        let ghost evv = ev@;
        let slot = ev.slot;
        let mut rec = match self.cache.remove(&slot) {
            Some(r) => r,
            None => CosVersionedConfirmedBlockWithEntries::default(),
        };
        rec.previous_blockhash = ev.parent_blockhash;
        rec.blockhash = ev.blockhash;
        rec.parent_slot = ev.parent_slot;
        rec.rewards = ev.rewards;
        rec.block_time = ev.block_time;
        rec.block_height = ev.block_height;
        rec.executed_transaction_count = ev.executed_transaction_count;
        rec.entry_count = ev.entry_count;
        self.cache.insert(slot, rec);
        assert(self.spec_cache() =~= spec_apply_block_info(old(self).spec_cache(), evv));
    }

    /// Overwrites the slot's observed status.
    pub fn apply_status(&mut self, slot: u64, status: SlotStatus)
        requires
            old(self).wf(),
        ensures
            final(self).wf(),
            final(self).spec_slot_range() == old(self).spec_slot_range(),
            final(self).spec_first_slot() == old(self).spec_first_slot(),
            final(self).spec_cache() == spec_apply_status(old(self).spec_cache(), slot, status),
    {
        let mut rec = match self.cache.remove(&slot) {
            Some(r) => r,
            None => CosVersionedConfirmedBlockWithEntries::default(),
        };
        rec.slot_status = status;
        self.cache.insert(slot, rec);
        assert(self.spec_cache() =~= spec_apply_status(
            old(self).spec_cache(),
            slot,
            status,
        ));
    }

    /// The first valid slot, once known.
    pub fn first_slot_value(&self) -> (r: Option<u64>)
        ensures
            r == self.spec_first_slot(),
    {
        self.first_slot
    }

    /// Whether the slot has a record under assembly.
    pub fn contains_slot(&self, slot: u64) -> (r: bool)
        ensures
            r == self.spec_cache().contains_key(slot),
    {
        self.cache.contains_key(&slot)
    }

    /// The slot's record, if one is under assembly.
    pub fn get_record(&self, slot: u64) -> (r: Option<&CosVersionedConfirmedBlockWithEntries>)
        ensures
            r is Some <==> self.spec_cache().contains_key(slot),
            r matches Some(rec) ==> rec@ == self.spec_cache()[slot],
    {
        self.cache.get(&slot)
    }

    /// Takes the slot's record out, if there is one: the finalization path
    /// owns it from here.
    pub fn remove_entry(&mut self, slot: u64) -> (r: Option<
        CosVersionedConfirmedBlockWithEntries,
    >)
        requires
            old(self).wf(),
        ensures
            final(self).wf(),
            final(self).spec_slot_range() == old(self).spec_slot_range(),
            final(self).spec_first_slot() == old(self).spec_first_slot(),
            final(self).spec_cache() == old(self).spec_cache().remove(slot),
            r is Some <==> old(self).spec_cache().contains_key(slot),
            r matches Some(rec) ==> rec@ == old(self).spec_cache()[slot],
    {
        let r = self.cache.remove(&slot);
        assert(self.spec_cache() =~= old(self).spec_cache().remove(slot));
        r
    }
}

} // verus!
