//! The ingestion pipeline: events in, committed ranges out.
//!
//! Live or replayed events are applied to the slot accumulator in whatever
//! order they arrive. When a slot is reported rooted, slots far enough in
//! the past are finalized: a slot whose record is rooted and complete is
//! committed to storage, any other is discarded. The lag window exists
//! because rootedness of slot N does not mean every event for nearby slots
//! has arrived yet; finalization waits out that margin instead of acting on
//! N itself.

use vstd::prelude::*;
use crate::config::GeyserPluginCosConfig;
use crate::datastore::{Datastore, spec_round_up_to_range, spec_apply_transaction,
    spec_apply_entry, spec_apply_block_info, spec_apply_status};
use crate::errors::GeyserPluginCosError;
use crate::keys::spec_range_start;
use crate::records::{CosVersionedConfirmedBlockWithEntries, SlotRecordV, SlotStatus,
    TransactionEvent, EntryEvent, BlockInfoEvent, spec_is_complete};
use crate::storage::{StorageManager, FsOp, FsOpV, fsop_views, spec_save_model,
    spec_order_after_save, spec_save_outcome_plan, ready_preserved};
use crate::cells::{CellV, spec_slot_cells};

verus! {

/// How far behind a newly rooted slot the finalization window begins.
pub const FINALIZE_WINDOW_START: u64 = 100;

/// How far behind a newly rooted slot the finalization window ends: slots
/// younger than this may still be receiving events.
pub const FINALIZE_WINDOW_END: u64 = 10;

/// The slots finalized when `slot` is rooted: the lag window behind it.
pub open spec fn spec_finalize_window(slot: u64) -> Set<u64> {
    let first = if slot >= FINALIZE_WINDOW_START {
        (slot - FINALIZE_WINDOW_START) as u64
    } else {
        0
    };
    let last = if slot >= FINALIZE_WINDOW_END {
        (slot - FINALIZE_WINDOW_END) as u64
    } else {
        0
    };
    Set::new(|x: u64| first <= x <= last && last > 0)
}

/// The slot an event speaks of.
pub open spec fn spec_event_slot(e: crate::wire::PluginEventV) -> u64 {
    match e {
        crate::wire::PluginEventV::Status { slot, .. } => slot,
        crate::wire::PluginEventV::Transaction(t) => t.slot,
        crate::wire::PluginEventV::BlockInfo(b) => b.slot,
        crate::wire::PluginEventV::Entry(en) => en.slot,
    }
}

/// Whether a slot's record may be committed: it exists, the source rooted
/// it, both count invariants hold, and it fits the machine limits of the
/// committer.
pub open spec fn spec_eligible(rec: SlotRecordV, slot: u64, slot_range: u64) -> bool {
    &&& spec_commit_worthy(rec)
    &&& rec.transactions.len() <= u32::MAX
    &&& spec_range_start(slot, slot_range) + slot_range <= u64::MAX
}

/// Whether a record earns a commit at finalization: the source rooted it
/// and both count invariants hold.
pub open spec fn spec_commit_worthy(rec: SlotRecordV) -> bool {
    rec.slot_status is Rooted && spec_is_complete(rec)
}

/// The pipeline state the finalization pass transforms: the accumulator's
/// records and the committer's trees.
#[verifier::ext_equal]
pub struct PipelineModel {
    pub cache: Map<u64, SlotRecordV>,
    pub staging: Map<u64, Map<u64, Seq<CellV>>>,
    pub ready: Map<u64, Map<u64, Seq<CellV>>>,
    pub order: Seq<u64>,
}

/// What finalizing one slot does to the pipeline state: the slot leaves
/// the accumulator; a rooted and complete record is saved, any other is
/// discarded without touching the trees.
pub open spec fn spec_finalize_model(
    m: PipelineModel,
    slot_range: u64,
    delay: u64,
    slot: u64,
) -> PipelineModel
    recommends
        slot_range >= 1,
{
    if m.cache.contains_key(slot) && spec_commit_worthy(m.cache[slot]) {
        let trees = spec_save_model(
            m.staging,
            m.ready,
            slot_range,
            delay,
            slot,
            spec_slot_cells(slot, m.cache[slot]),
        );
        PipelineModel {
            cache: m.cache.remove(slot),
            staging: trees.0,
            ready: trees.1,
            order: spec_order_after_save(m.order, slot_range, delay, slot),
        }
    } else {
        PipelineModel { cache: m.cache.remove(slot), ..m }
    }
}

/// The file operations finalizing one slot emits: a commit's save plan, or
/// nothing.
pub open spec fn spec_finalize_plan(
    m: PipelineModel,
    slot_range: u64,
    delay: u64,
    slot: u64,
) -> Seq<FsOpV>
    recommends
        slot_range >= 1,
{
    if m.cache.contains_key(slot) && spec_commit_worthy(m.cache[slot]) {
        spec_save_outcome_plan(
            m.order,
            slot_range,
            delay,
            slot,
            spec_slot_cells(slot, m.cache[slot]),
        )
    } else {
        Seq::empty()
    }
}

/// The finalization sweep: `count` consecutive slots from `first`, oldest
/// first, each finalized in turn.
pub open spec fn spec_sweep_model(
    m: PipelineModel,
    slot_range: u64,
    delay: u64,
    first: int,
    count: nat,
) -> PipelineModel
    decreases count,
{
    if count == 0 {
        m
    } else {
        spec_sweep_model(
            spec_finalize_model(m, slot_range, delay, first as u64),
            slot_range,
            delay,
            first + 1,
            (count - 1) as nat,
        )
    }
}

/// The file operations the sweep emits: each slot's commit plan, in sweep
/// order.
pub open spec fn spec_sweep_plan(
    m: PipelineModel,
    slot_range: u64,
    delay: u64,
    first: int,
    count: nat,
) -> Seq<FsOpV>
    decreases count,
{
    if count == 0 {
        Seq::empty()
    } else {
        spec_finalize_plan(m, slot_range, delay, first as u64) + spec_sweep_plan(
            spec_finalize_model(m, slot_range, delay, first as u64),
            slot_range,
            delay,
            first + 1,
            (count - 1) as nat,
        )
    }
}

/// The first slot the sweep behind a rooted slot visits.
pub open spec fn spec_window_first(slot: u64) -> u64 {
    if slot >= FINALIZE_WINDOW_START {
        (slot - FINALIZE_WINDOW_START) as u64
    } else {
        0
    }
}

/// The last slot the sweep behind a rooted slot visits; zero means the
/// sweep visits nothing.
pub open spec fn spec_window_last(slot: u64) -> u64 {
    if slot >= FINALIZE_WINDOW_END {
        (slot - FINALIZE_WINDOW_END) as u64
    } else {
        0
    }
}

/// How many slots the sweep behind a rooted slot visits.
pub open spec fn spec_window_count(slot: u64) -> nat {
    if spec_window_last(slot) == 0 {
        0
    } else {
        (spec_window_last(slot) - spec_window_first(slot) + 1) as nat
    }
}

/// The pipeline: the in-memory accumulator and the storage committer,
/// constructed once from one configuration.
pub struct GeyserPluginCos {
    datastore: Datastore,
    storage: StorageManager,
}

impl GeyserPluginCos {
    /// The pipeline's structural invariant: both halves agree on the range
    /// size.
    pub closed spec fn wf(&self) -> bool {
        &&& self.datastore.wf()
        &&& self.storage.wf()
        &&& self.datastore.spec_slot_range() == self.storage.spec_slot_range()
    }

    /// The accumulator's records, by slot.
    pub closed spec fn spec_cache(&self) -> Map<u64, SlotRecordV> {
        self.datastore.spec_cache()
    }

    /// The first valid slot, once known.
    pub closed spec fn spec_first_slot(&self) -> Option<u64> {
        self.datastore.spec_first_slot()
    }

    /// The staging tree's content.
    pub closed spec fn spec_staging(&self) -> Map<u64, Map<u64, Seq<crate::cells::CellV>>> {
        self.storage.spec_staging()
    }

    /// The ready tree's content.
    pub closed spec fn spec_ready(&self) -> Map<u64, Map<u64, Seq<crate::cells::CellV>>> {
        self.storage.spec_ready()
    }

    /// The configured range size.
    pub closed spec fn spec_slot_range(&self) -> u64 {
        self.datastore.spec_slot_range()
    }

    /// The configured trigger offset.
    pub closed spec fn spec_commit_slot_delay(&self) -> u64 {
        self.storage.spec_commit_slot_delay()
    }

    /// The staged range starts, oldest first.
    pub closed spec fn spec_staging_order(&self) -> Seq<u64> {
        self.storage.spec_staging_order()
    }

    /// The pipeline state as one value, for the finalization contracts.
    pub open spec fn spec_model(&self) -> PipelineModel {
        PipelineModel {
            cache: self.spec_cache(),
            staging: self.spec_staging(),
            ready: self.spec_ready(),
            order: self.spec_staging_order(),
        }
    }

    /// A fresh pipeline for one configuration.
    pub fn new(config: &GeyserPluginCosConfig) -> (r: Self)
        requires
            config.slot_range >= 1,
        ensures
            r.wf(),
            r.spec_cache() == Map::<u64, SlotRecordV>::empty(),
            r.spec_first_slot() is None,
            r.spec_staging() == Map::<u64, Map<u64, Seq<crate::cells::CellV>>>::empty(),
            r.spec_ready() == Map::<u64, Map<u64, Seq<crate::cells::CellV>>>::empty(),
            r.spec_slot_range() == config.slot_range,
            r.spec_commit_slot_delay() == config.commit_slot_delay,
    {
        GeyserPluginCos { datastore: Datastore::new(config), storage: StorageManager::new(config) }
    }

    /// Applies a transaction notification: the transaction lands at its
    /// index in its slot's record, unless the slot lies below the first
    /// valid slot, which drops the event with a non-fatal skip.
    pub fn on_transaction(&mut self, tx_event: TransactionEvent) -> (r: Result<
        (),
        GeyserPluginCosError,
    >)
        requires
            old(self).wf(),
            old(self).spec_first_slot() is None ==> spec_round_up_to_range(
                tx_event.slot,
                old(self).spec_slot_range(),
            ) <= u64::MAX,
        ensures
            final(self).wf(),
            final(self).spec_ready() == old(self).spec_ready(),
            final(self).spec_staging() == old(self).spec_staging(),
            final(self).spec_staging_order() == old(self).spec_staging_order(),
            final(self).spec_slot_range() == old(self).spec_slot_range(),
            final(self).spec_commit_slot_delay() == old(self).spec_commit_slot_delay(),
            old(self).spec_first_slot() is None ==> final(self).spec_first_slot() == Some(
                spec_round_up_to_range(tx_event.slot, old(self).spec_slot_range()) as u64,
            ),
            old(self).spec_first_slot() is Some ==> final(self).spec_first_slot() == old(
                self,
            ).spec_first_slot(),
            r is Ok <==> (final(self).spec_first_slot() matches Some(f) && f <= tx_event.slot),
            r is Ok ==> final(self).spec_cache() == spec_apply_transaction(
                old(self).spec_cache(),
                tx_event.slot,
                tx_event.index as int,
                tx_event.transaction@,
            ),
            r matches Err(e) ==> e is SkipIncompleteBlockRange && final(self).spec_cache() == old(
                self,
            ).spec_cache(),
    {
        self.datastore.check_first_slot(tx_event.slot)?;
        self.datastore.apply_transaction(tx_event.slot, tx_event.index, tx_event.transaction);
        Ok(())
    }

    /// Applies a block-metadata notification: the slot's record takes the
    /// header fields and the expected counts.
    pub fn on_block_info(&mut self, block_info_event: BlockInfoEvent) -> (r: Result<
        (),
        GeyserPluginCosError,
    >)
        requires
            old(self).wf(),
            old(self).spec_first_slot() is None ==> spec_round_up_to_range(
                block_info_event.slot,
                old(self).spec_slot_range(),
            ) <= u64::MAX,
        ensures
            final(self).wf(),
            final(self).spec_ready() == old(self).spec_ready(),
            final(self).spec_staging() == old(self).spec_staging(),
            final(self).spec_staging_order() == old(self).spec_staging_order(),
            final(self).spec_slot_range() == old(self).spec_slot_range(),
            final(self).spec_commit_slot_delay() == old(self).spec_commit_slot_delay(),
            old(self).spec_first_slot() is None ==> final(self).spec_first_slot() == Some(
                spec_round_up_to_range(block_info_event.slot, old(self).spec_slot_range()) as u64,
            ),
            old(self).spec_first_slot() is Some ==> final(self).spec_first_slot() == old(
                self,
            ).spec_first_slot(),
            r is Ok <==> (final(self).spec_first_slot() matches Some(f) && f
                <= block_info_event.slot),
            r is Ok ==> final(self).spec_cache() == spec_apply_block_info(
                old(self).spec_cache(),
                block_info_event@,
            ),
            r matches Err(e) ==> e is SkipIncompleteBlockRange && final(self).spec_cache() == old(
                self,
            ).spec_cache(),
    {
        self.datastore.check_first_slot(block_info_event.slot)?;
        self.datastore.apply_block_info(block_info_event);
        Ok(())
    }

    /// Applies an entry notification: the entry lands at its index in its
    /// slot's record.
    pub fn on_entry(&mut self, entry_event: EntryEvent) -> (r: Result<(), GeyserPluginCosError>)
        requires
            old(self).wf(),
            old(self).spec_first_slot() is None ==> spec_round_up_to_range(
                entry_event.slot,
                old(self).spec_slot_range(),
            ) <= u64::MAX,
        ensures
            final(self).wf(),
            final(self).spec_ready() == old(self).spec_ready(),
            final(self).spec_staging() == old(self).spec_staging(),
            final(self).spec_staging_order() == old(self).spec_staging_order(),
            final(self).spec_slot_range() == old(self).spec_slot_range(),
            final(self).spec_commit_slot_delay() == old(self).spec_commit_slot_delay(),
            old(self).spec_first_slot() is None ==> final(self).spec_first_slot() == Some(
                spec_round_up_to_range(entry_event.slot, old(self).spec_slot_range()) as u64,
            ),
            old(self).spec_first_slot() is Some ==> final(self).spec_first_slot() == old(
                self,
            ).spec_first_slot(),
            r is Ok <==> (final(self).spec_first_slot() matches Some(f) && f <= entry_event.slot),
            r is Ok ==> final(self).spec_cache() == spec_apply_entry(
                old(self).spec_cache(),
                entry_event.slot,
                entry_event.index as int,
                (crate::records::EntryRecordV {
                    num_hashes: entry_event.num_hashes,
                    hash: entry_event.hash@,
                    num_transactions: entry_event.executed_transaction_count,
                    starting_transaction_index: entry_event.starting_transaction_index,
                }),
            ),
            r matches Err(e) ==> e is SkipIncompleteBlockRange && final(self).spec_cache() == old(
                self,
            ).spec_cache(),
    {
        self.datastore.check_first_slot(entry_event.slot)?;
        let slot = entry_event.slot;
        let index = entry_event.index;
        self.datastore.apply_entry(slot, index, entry_event.to_record());
        Ok(())
    }

    /// Takes one slot out of the accumulator and either commits it — its
    /// record is rooted and complete — or discards it. Returns the file
    /// operations of a commit, `None` when the slot was discarded or never
    /// seen. Partial data is dropped, never persisted.
    pub fn finalize_slot(&mut self, slot: u64) -> (r: Result<
        Option<Vec<FsOp>>,
        GeyserPluginCosError,
    >)
        requires
            old(self).wf(),
        ensures
            final(self).wf(),
            final(self).spec_slot_range() == old(self).spec_slot_range(),
            final(self).spec_commit_slot_delay() == old(self).spec_commit_slot_delay(),
            final(self).spec_first_slot() == old(self).spec_first_slot(),
            r is Ok ==> final(self).spec_cache() == old(self).spec_cache().remove(slot),
            r matches Ok(Some(plan)) <==> (old(self).spec_cache().contains_key(slot)
                && spec_eligible(
                old(self).spec_cache()[slot],
                slot,
                old(self).spec_slot_range(),
            ) && r is Ok),
            r matches Ok(Some(plan)) ==> ({
                let trees = spec_save_model(
                    old(self).spec_staging(),
                    old(self).spec_ready(),
                    old(self).spec_slot_range(),
                    old(self).spec_commit_slot_delay(),
                    slot,
                    spec_slot_cells(slot, old(self).spec_cache()[slot]),
                );
                final(self).spec_staging() == trees.0 && final(self).spec_ready() == trees.1
            }),
            r matches Ok(None) ==> {
                &&& final(self).spec_staging() == old(self).spec_staging()
                &&& final(self).spec_ready() == old(self).spec_ready()
                &&& final(self).spec_staging_order() == old(self).spec_staging_order()
            },
            r matches Ok(None) <==> !(old(self).spec_cache().contains_key(slot)
                && spec_commit_worthy(old(self).spec_cache()[slot])),
            old(self).spec_cache().contains_key(slot) && spec_commit_worthy(
                old(self).spec_cache()[slot],
            ) && !spec_eligible(
                old(self).spec_cache()[slot],
                slot,
                old(self).spec_slot_range(),
            ) ==> r is Err,
            r is Ok ==> final(self).spec_model() == spec_finalize_model(
                old(self).spec_model(),
                old(self).spec_slot_range(),
                old(self).spec_commit_slot_delay(),
                slot,
            ),
            r matches Ok(Some(plan)) ==> fsop_views(plan@) == spec_finalize_plan(
                old(self).spec_model(),
                old(self).spec_slot_range(),
                old(self).spec_commit_slot_delay(),
                slot,
            ),
            r is Err ==> final(self).spec_ready() == old(self).spec_ready(),
            r matches Err(e) ==> e is InternalError,
            ready_preserved(old(self).spec_ready(), final(self).spec_ready()),
    {
        let ghost m0 = old(self).spec_model();
        let taken = self.datastore.remove_entry(slot);
        match taken {
            None => {
                proof {
                    assert(m0.cache.remove(slot) =~= m0.cache);
                    assert(self.spec_model() =~= spec_finalize_model(
                        m0,
                        self.spec_slot_range(),
                        self.spec_commit_slot_delay(),
                        slot,
                    ));
                }
                Ok(None)
            },
            Some(rec) => {
                let rooted = match rec.slot_status {
                    SlotStatus::Rooted => true,
                    _ => false,
                };
                if !(rooted && rec.is_complete()) {
                    // Incomplete or non-rooted at its scheduled removal
                    // time: discarded with its partial data, not an error.
                    proof {
                        assert(self.spec_model() =~= spec_finalize_model(
                            m0,
                            self.spec_slot_range(),
                            self.spec_commit_slot_delay(),
                            slot,
                        ));
                    }
                    return Ok(None);
                }
                let tx_len: usize = rec.transactions.len();
                if tx_len as u64 > u32::MAX as u64 {
                    return Err(GeyserPluginCosError::InternalError {
                        msg: String::from_str("finalize: transaction count exceeds cell index"),
                    });
                }
                proof {
                    self.storage.lemma_wf_positive_range();
                }
                let range = crate::keys::range_start(slot, self.storage_slot_range());
                if self.storage_slot_range() > u64::MAX - range {
                    return Err(GeyserPluginCosError::InternalError {
                        msg: String::from_str("finalize: range end exceeds the slot domain"),
                    });
                }
                let plan = self.storage.save(slot, &rec)?;
                proof {
                    assert(self.spec_model() =~= spec_finalize_model(
                        m0,
                        self.spec_slot_range(),
                        self.spec_commit_slot_delay(),
                        slot,
                    ));
                }
                Ok(Some(plan))
            },
        }
    }

    /// Applies one logged or live event, whatever its kind: the dispatch
    /// point replay drives. Replay may redeliver events already applied
    /// before a crash; every application here is idempotent in effect.
    pub fn on_plugin_event(&mut self, event: crate::wire::PluginEvent) -> (r: Result<
        Vec<FsOp>,
        GeyserPluginCosError,
    >)
        requires
            old(self).wf(),
            old(self).spec_first_slot() is None ==> spec_round_up_to_range(
                spec_event_slot(event@),
                old(self).spec_slot_range(),
            ) <= u64::MAX,
        ensures
            final(self).wf(),
            final(self).spec_slot_range() == old(self).spec_slot_range(),
            final(self).spec_commit_slot_delay() == old(self).spec_commit_slot_delay(),
            old(self).spec_first_slot() is None ==> final(self).spec_first_slot() == Some(
                spec_round_up_to_range(
                    spec_event_slot(event@),
                    old(self).spec_slot_range(),
                ) as u64,
            ),
            old(self).spec_first_slot() is Some ==> final(self).spec_first_slot() == old(
                self,
            ).spec_first_slot(),
            (r matches Err(e) && e is SkipIncompleteBlockRange) <==> !(final(self).spec_first_slot() matches Some(f) && f <= spec_event_slot(event@)),
            r matches Err(e) ==> (e is SkipIncompleteBlockRange ==> final(self).spec_cache()
                == old(self).spec_cache()),
            event@ matches crate::wire::PluginEventV::Transaction(t) ==> {
                &&& (r is Ok <==> (final(self).spec_first_slot() matches Some(f) && f <= t.slot))
                &&& (r is Ok ==> final(self).spec_cache() == spec_apply_transaction(
                    old(self).spec_cache(),
                    t.slot,
                    t.index as int,
                    t.transaction,
                ))
                &&& final(self).spec_staging() == old(self).spec_staging()
                &&& final(self).spec_ready() == old(self).spec_ready()
                &&& final(self).spec_staging_order() == old(self).spec_staging_order()
            },
            event@ matches crate::wire::PluginEventV::BlockInfo(b) ==> {
                &&& (r is Ok <==> (final(self).spec_first_slot() matches Some(f) && f <= b.slot))
                &&& (r is Ok ==> final(self).spec_cache() == spec_apply_block_info(
                    old(self).spec_cache(),
                    b,
                ))
                &&& final(self).spec_staging() == old(self).spec_staging()
                &&& final(self).spec_ready() == old(self).spec_ready()
                &&& final(self).spec_staging_order() == old(self).spec_staging_order()
            },
            event@ matches crate::wire::PluginEventV::Entry(en) ==> {
                &&& (r is Ok <==> (final(self).spec_first_slot() matches Some(f) && f <= en.slot))
                &&& (r is Ok ==> final(self).spec_cache() == spec_apply_entry(
                    old(self).spec_cache(),
                    en.slot,
                    en.index as int,
                    (crate::records::EntryRecordV {
                        num_hashes: en.num_hashes,
                        hash: en.hash,
                        num_transactions: en.executed_transaction_count,
                        starting_transaction_index: en.starting_transaction_index,
                    }),
                ))
                &&& final(self).spec_staging() == old(self).spec_staging()
                &&& final(self).spec_ready() == old(self).spec_ready()
                &&& final(self).spec_staging_order() == old(self).spec_staging_order()
            },
            !(event@ is Status) ==> (r matches Ok(plan) ==> fsop_views(plan@) == Seq::<
                FsOpV,
            >::empty()),
            event@ matches crate::wire::PluginEventV::Status { slot, status } ==> {
                &&& (!(status is Rooted) ==> (r is Ok <==> (final(self).spec_first_slot() matches
                    Some(f) && f <= slot)))
                &&& (r is Ok && !(status is Rooted) ==> {
                    &&& final(self).spec_cache() == spec_apply_status(
                        old(self).spec_cache(),
                        slot,
                        status,
                    )
                    &&& final(self).spec_staging() == old(self).spec_staging()
                    &&& final(self).spec_ready() == old(self).spec_ready()
                    &&& final(self).spec_staging_order() == old(self).spec_staging_order()
                })
                &&& (!(status is Rooted) ==> (r matches Ok(plan) ==> fsop_views(plan@) == Seq::<
                    FsOpV,
                >::empty()))
                &&& (r is Ok && status is Rooted ==> final(self).spec_model() == spec_sweep_model(
                    (PipelineModel {
                        cache: spec_apply_status(old(self).spec_cache(), slot, status),
                        ..old(self).spec_model()
                    }),
                    old(self).spec_slot_range(),
                    old(self).spec_commit_slot_delay(),
                    spec_window_first(slot) as int,
                    spec_window_count(slot),
                ))
                &&& (status is Rooted ==> (r matches Ok(plan) ==> fsop_views(plan@)
                    == spec_sweep_plan(
                    (PipelineModel {
                        cache: spec_apply_status(old(self).spec_cache(), slot, status),
                        ..old(self).spec_model()
                    }),
                    old(self).spec_slot_range(),
                    old(self).spec_commit_slot_delay(),
                    spec_window_first(slot) as int,
                    spec_window_count(slot),
                )))
                &&& ((status is Rooted && (final(self).spec_first_slot() matches Some(f) && f
                    <= slot) && (forall|s: u64|
                    #[trigger] spec_finalize_window(slot).contains(s) ==> !(spec_apply_status(
                        old(self).spec_cache(),
                        slot,
                        status,
                    ).contains_key(s) && spec_commit_worthy(
                        spec_apply_status(old(self).spec_cache(), slot, status)[s],
                    )))) ==> r is Ok)
            },
            ready_preserved(old(self).spec_ready(), final(self).spec_ready()),
    {
        match event {
            crate::wire::PluginEvent::Status { slot, status } => self.on_slot_status(slot, status),
            crate::wire::PluginEvent::Transaction(t) => {
                self.on_transaction(t)?;
                let empty_plan: Vec<FsOp> = Vec::new();
                Ok(empty_plan)
            },
            crate::wire::PluginEvent::BlockInfo(b) => {
                self.on_block_info(b)?;
                let empty_plan: Vec<FsOp> = Vec::new();
                Ok(empty_plan)
            },
            crate::wire::PluginEvent::Entry(e) => {
                self.on_entry(e)?;
                let empty_plan: Vec<FsOp> = Vec::new();
                Ok(empty_plan)
            },
        }
    }

    /// Whether the slot has a record under assembly.
    pub fn contains_slot(&self, slot: u64) -> (r: bool)
        ensures
            r == self.spec_cache().contains_key(slot),
    {
        self.datastore.contains_slot(slot)
    }

    /// The slot's record, if one is under assembly.
    pub fn get_record(&self, slot: u64) -> (r: Option<&CosVersionedConfirmedBlockWithEntries>)
        ensures
            r is Some <==> self.spec_cache().contains_key(slot),
            r matches Some(rec) ==> rec@ == self.spec_cache()[slot],
    {
        self.datastore.get_record(slot)
    }

    /// The first valid slot, once known.
    pub fn first_valid_slot(&self) -> (r: Option<u64>)
        ensures
            r == self.spec_first_slot(),
    {
        self.datastore.first_slot_value()
    }

    /// Whether the staging tree holds a range.
    pub fn staging_has_range(&self, start: u64) -> (r: bool)
        ensures
            r == self.spec_staging().contains_key(start),
    {
        self.storage.staging_has_range(start)
    }

    /// Whether the ready tree holds a range.
    pub fn ready_has_range(&self, start: u64) -> (r: bool)
        ensures
            r == self.spec_ready().contains_key(start),
    {
        self.storage.ready_has_range(start)
    }

    /// The configured range size.
    fn storage_slot_range(&self) -> (r: u64)
        ensures
            r == self.storage.spec_slot_range(),
    {
        self.storage.slot_range_config()
    }

    /// Applies a status notification, and on a rooted slot runs the
    /// finalization pass over the lag window behind it. Returns the file
    /// operations of every commit the pass made, in order.
    pub fn on_slot_status(&mut self, slot: u64, status: SlotStatus) -> (r: Result<
        Vec<FsOp>,
        GeyserPluginCosError,
    >)
        requires
            old(self).wf(),
            old(self).spec_first_slot() is None ==> spec_round_up_to_range(
                slot,
                old(self).spec_slot_range(),
            ) <= u64::MAX,
        ensures
            final(self).wf(),
            final(self).spec_slot_range() == old(self).spec_slot_range(),
            final(self).spec_commit_slot_delay() == old(self).spec_commit_slot_delay(),
            old(self).spec_first_slot() is None ==> final(self).spec_first_slot() == Some(
                spec_round_up_to_range(slot, old(self).spec_slot_range()) as u64,
            ),
            old(self).spec_first_slot() is Some ==> final(self).spec_first_slot() == old(
                self,
            ).spec_first_slot(),
            r is Ok ==> (final(self).spec_first_slot() matches Some(f) && f <= slot),
            (r matches Err(e) && e is SkipIncompleteBlockRange) <==> !(final(self).spec_first_slot() matches Some(f) && f <= slot),
            !(status is Rooted) ==> (r is Ok <==> (final(self).spec_first_slot() matches Some(f)
                && f <= slot)),
            r is Ok && !(status is Rooted) ==> {
                &&& final(self).spec_cache() == spec_apply_status(
                    old(self).spec_cache(),
                    slot,
                    status,
                )
                &&& final(self).spec_staging() == old(self).spec_staging()
                &&& final(self).spec_ready() == old(self).spec_ready()
                &&& final(self).spec_staging_order() == old(self).spec_staging_order()
            },
            !(status is Rooted) ==> (r matches Ok(plan) ==> fsop_views(plan@) == Seq::<
                FsOpV,
            >::empty()),
            r is Ok && status is Rooted ==> final(self).spec_cache() == spec_apply_status(
                old(self).spec_cache(),
                slot,
                status,
            ).remove_keys(spec_finalize_window(slot)),
            r is Ok && status is Rooted ==> final(self).spec_model() == spec_sweep_model(
                (PipelineModel {
                    cache: spec_apply_status(old(self).spec_cache(), slot, status),
                    ..old(self).spec_model()
                }),
                old(self).spec_slot_range(),
                old(self).spec_commit_slot_delay(),
                spec_window_first(slot) as int,
                spec_window_count(slot),
            ),
            status is Rooted ==> (r matches Ok(plan) ==> fsop_views(plan@) == spec_sweep_plan(
                (PipelineModel {
                    cache: spec_apply_status(old(self).spec_cache(), slot, status),
                    ..old(self).spec_model()
                }),
                old(self).spec_slot_range(),
                old(self).spec_commit_slot_delay(),
                spec_window_first(slot) as int,
                spec_window_count(slot),
            )),
            (status is Rooted && (final(self).spec_first_slot() matches Some(f) && f <= slot)
                && (forall|s: u64|
                #[trigger] spec_finalize_window(slot).contains(s) ==> !(spec_apply_status(
                    old(self).spec_cache(),
                    slot,
                    status,
                ).contains_key(s) && spec_commit_worthy(
                    spec_apply_status(old(self).spec_cache(), slot, status)[s],
                )))) ==> r is Ok,
            r matches Err(e) ==> (e is SkipIncompleteBlockRange ==> final(self).spec_cache()
                == old(self).spec_cache()),
            r matches Err(e) ==> (e is SkipIncompleteBlockRange || e is InternalError),
            ready_preserved(old(self).spec_ready(), final(self).spec_ready()),
    {
        self.datastore.check_first_slot(slot)?;
        self.datastore.apply_status(slot, status);
        proof {
            assert(self.spec_model() =~= (PipelineModel {
                cache: spec_apply_status(old(self).spec_cache(), slot, status),
                ..old(self).spec_model()
            }));
        }
        match status {
            SlotStatus::Rooted => self.on_slot_rooted(slot),
            _ => {
                let empty_plan: Vec<FsOp> = Vec::new();
                proof {
                    assert(fsop_views(empty_plan@) =~= Seq::<FsOpV>::empty());
                }
                Ok(empty_plan)
            },
        }
    }

    /// Finalizes every slot in the lag window behind a newly rooted slot:
    /// far enough back that its events have all arrived, recent enough not
    /// to have been swept before. Each such slot leaves the accumulator;
    /// the rooted-and-complete ones are committed.
    #[verifier::spinoff_prover]
    #[verifier::rlimit(100)]
    pub fn on_slot_rooted(&mut self, slot: u64) -> (r: Result<Vec<FsOp>, GeyserPluginCosError>)
        requires
            old(self).wf(),
        ensures
            final(self).wf(),
            final(self).spec_slot_range() == old(self).spec_slot_range(),
            final(self).spec_commit_slot_delay() == old(self).spec_commit_slot_delay(),
            final(self).spec_first_slot() == old(self).spec_first_slot(),
            r is Ok ==> final(self).spec_cache() == old(self).spec_cache().remove_keys(
                spec_finalize_window(slot),
            ),
            r is Ok ==> final(self).spec_model() == spec_sweep_model(
                old(self).spec_model(),
                old(self).spec_slot_range(),
                old(self).spec_commit_slot_delay(),
                spec_window_first(slot) as int,
                spec_window_count(slot),
            ),
            r matches Ok(plan) ==> fsop_views(plan@) == spec_sweep_plan(
                old(self).spec_model(),
                old(self).spec_slot_range(),
                old(self).spec_commit_slot_delay(),
                spec_window_first(slot) as int,
                spec_window_count(slot),
            ),
            (forall|s: u64|
                #[trigger] spec_finalize_window(slot).contains(s) ==> !(old(
                    self,
                ).spec_cache().contains_key(s) && spec_commit_worthy(old(self).spec_cache()[s])))
                ==> r is Ok,
            r matches Err(e) ==> e is InternalError,
            ready_preserved(old(self).spec_ready(), final(self).spec_ready()),
    {
        let ghost m0 = old(self).spec_model();
        let ghost sr0 = old(self).spec_slot_range();
        let ghost d0 = old(self).spec_commit_slot_delay();
        let first_slot: u64 = if slot >= FINALIZE_WINDOW_START {
            slot - FINALIZE_WINDOW_START
        } else {
            0
        };
        let last_slot: u64 = if slot >= FINALIZE_WINDOW_END {
            slot - FINALIZE_WINDOW_END
        } else {
            0
        };
        let ghost window = spec_finalize_window(slot);
        let ghost total = spec_window_count(slot);
        proof {
            assert(window =~= Set::new(|x: u64| first_slot <= x <= last_slot && last_slot > 0));
            assert(first_slot == spec_window_first(slot));
            assert(last_slot == spec_window_last(slot));
        }
        let mut plan: Vec<FsOp> = Vec::new();
        if last_slot == 0 {
            proof {
                assert(old(self).spec_cache().remove_keys(window) =~= old(self).spec_cache());
                assert(fsop_views(plan@) =~= Seq::<FsOpV>::empty());
            }
            return Ok(plan);
        }
        let mut prev_slot: u64 = first_slot;
        proof {
            assert(old(self).spec_cache().remove_keys(
                Set::new(|x: u64| first_slot <= x < first_slot && last_slot > 0),
            ) =~= old(self).spec_cache());
            assert(fsop_views(plan@) =~= Seq::<FsOpV>::empty());
            assert(Seq::<FsOpV>::empty() + spec_sweep_plan(m0, sr0, d0, first_slot as int, total)
                =~= spec_sweep_plan(m0, sr0, d0, first_slot as int, total));
        }
        loop
            invariant
                first_slot <= prev_slot <= last_slot + 1,
                last_slot < u64::MAX,
                last_slot > 0,
                first_slot == spec_window_first(slot),
                last_slot == spec_window_last(slot),
                total == spec_window_count(slot),
                total == last_slot + 1 - first_slot,
                window == spec_finalize_window(slot),
                m0 == old(self).spec_model(),
                sr0 == old(self).spec_slot_range(),
                d0 == old(self).spec_commit_slot_delay(),
                self.wf(),
                self.datastore.spec_slot_range() == old(self).spec_slot_range(),
                self.datastore.spec_first_slot() == old(self).spec_first_slot(),
                self.storage.spec_commit_slot_delay() == old(self).spec_commit_slot_delay(),
                self.spec_cache() == old(self).spec_cache().remove_keys(
                    Set::new(|x: u64| first_slot <= x < prev_slot && last_slot > 0),
                ),
                spec_sweep_model(
                    self.spec_model(),
                    sr0,
                    d0,
                    prev_slot as int,
                    (last_slot + 1 - prev_slot) as nat,
                ) == spec_sweep_model(m0, sr0, d0, first_slot as int, total),
                fsop_views(plan@) + spec_sweep_plan(
                    self.spec_model(),
                    sr0,
                    d0,
                    prev_slot as int,
                    (last_slot + 1 - prev_slot) as nat,
                ) == spec_sweep_plan(m0, sr0, d0, first_slot as int, total),
                forall|s: u64|
                    prev_slot <= s <= last_slot ==> (#[trigger] self.spec_cache().contains_key(s)
                        == old(self).spec_cache().contains_key(s) && (
                    self.spec_cache().contains_key(s) ==> self.spec_cache()[s] == old(
                        self,
                    ).spec_cache()[s])),
                ready_preserved(old(self).spec_ready(), self.spec_ready()),
            ensures
                prev_slot == last_slot + 1,
                self.wf(),
                self.datastore.spec_slot_range() == old(self).spec_slot_range(),
                self.datastore.spec_first_slot() == old(self).spec_first_slot(),
                self.storage.spec_commit_slot_delay() == old(self).spec_commit_slot_delay(),
                self.spec_cache() == old(self).spec_cache().remove_keys(
                    Set::new(|x: u64| first_slot <= x < prev_slot && last_slot > 0),
                ),
                self.spec_model() == spec_sweep_model(m0, sr0, d0, first_slot as int, total),
                fsop_views(plan@) == spec_sweep_plan(m0, sr0, d0, first_slot as int, total),
                ready_preserved(old(self).spec_ready(), self.spec_ready()),
            decreases last_slot + 1 - prev_slot,
        {
            if prev_slot > last_slot {
                proof {
                    assert(fsop_views(plan@) + Seq::<FsOpV>::empty() =~= fsop_views(plan@));
                }
                break ;
            }
            let ghost cur = self.spec_model();
            let ghost rem = (last_slot + 1 - prev_slot) as nat;
            let step = self.finalize_slot(prev_slot);
            match step {
                Ok(Some(mut ops)) => {
                    let ghost ops_views = fsop_views(ops@);
                    let ghost pre_plan = plan@;
                    plan.append(&mut ops);
                    proof {
                        crate::records::lemma_map_values_concat(
                            pre_plan,
                            ops@,
                            |o: FsOp| o@,
                        );
                        assert(fsop_views(plan@) == fsop_views(pre_plan) + ops_views);
                        assert((fsop_views(pre_plan) + ops_views) + spec_sweep_plan(
                            self.spec_model(),
                            sr0,
                            d0,
                            prev_slot + 1,
                            (rem - 1) as nat,
                        ) =~= fsop_views(pre_plan) + (ops_views + spec_sweep_plan(
                            self.spec_model(),
                            sr0,
                            d0,
                            prev_slot + 1,
                            (rem - 1) as nat,
                        )));
                    }
                },
                Ok(None) => {
                    proof {
                        assert(spec_finalize_plan(cur, sr0, d0, prev_slot) =~= Seq::<
                            FsOpV,
                        >::empty());
                        assert(Seq::<FsOpV>::empty() + spec_sweep_plan(
                            self.spec_model(),
                            sr0,
                            d0,
                            prev_slot + 1,
                            (rem - 1) as nat,
                        ) =~= spec_sweep_plan(
                            self.spec_model(),
                            sr0,
                            d0,
                            prev_slot + 1,
                            (rem - 1) as nat,
                        ));
                    }
                },
                Err(e) => {
                    proof {
                        // The step fails only on a rooted and complete
                        // record, which the sweep has not touched: the
                        // success-owed case cannot reach here.
                        assert(cur.cache.contains_key(prev_slot) && spec_commit_worthy(
                            cur.cache[prev_slot],
                        ));
                        assert(window.contains(prev_slot));
                        assert(old(self).spec_cache().contains_key(prev_slot)
                            && spec_commit_worthy(old(self).spec_cache()[prev_slot]));
                    }
                    return Err(e);
                },
            }
            proof {
                assert(self.spec_cache() =~= old(self).spec_cache().remove_keys(
                    Set::new(|x: u64| first_slot <= x < prev_slot + 1 && last_slot > 0),
                ));
            }
            prev_slot = prev_slot + 1;
        }
        proof {
            assert(Set::new(|x: u64| first_slot <= x < prev_slot && last_slot > 0)
                =~= window);
            assert(self.spec_cache() =~= old(self).spec_cache().remove_keys(window));
        }
        Ok(plan)
    }
}

} // verus!
