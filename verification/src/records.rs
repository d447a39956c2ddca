//! The per-slot data model.
//!
//! A slot's record grows as its events arrive, in any order: transactions
//! and entries are placed by the index the source assigned them, with
//! placeholder elements filling the gaps until the real ones arrive. Block
//! metadata carries the expected counts; a slot is complete exactly when
//! both sequences have reached them.

use vstd::prelude::*;

verus! {

/// The view of an optional string.
pub open spec fn view_opt_string(o: Option<String>) -> Option<Seq<char>> {
    match o {
        Some(s) => Some(s@),
        None => None,
    }
}

/// An account key a transaction touched, as the conversion layer hands it
/// in: its text form, and whether it is a known system address that the
/// per-address index must skip.
pub struct TouchedAddress {
    pub key: String,
    pub reserved: bool,
}

/// The value of a `TouchedAddress`.
#[verifier::ext_equal]
pub struct TouchedAddressV {
    pub key: Seq<char>,
    pub reserved: bool,
}

impl View for TouchedAddress {
    type V = TouchedAddressV;

    open spec fn view(&self) -> TouchedAddressV {
        TouchedAddressV { key: self.key@, reserved: self.reserved }
    }
}

/// One transaction of a slot: its signature in text form, its execution
/// error if any, the account keys it touched, and its memo if any.
pub struct TransactionRecord {
    pub signature: String,
    pub err: Option<String>,
    pub addresses: Vec<TouchedAddress>,
    pub memo: Option<String>,
}

/// The value of a `TransactionRecord`.
#[verifier::ext_equal]
pub struct TransactionRecordV {
    pub signature: Seq<char>,
    pub err: Option<Seq<char>>,
    pub addresses: Seq<TouchedAddressV>,
    pub memo: Option<Seq<char>>,
}

impl View for TransactionRecord {
    type V = TransactionRecordV;

    open spec fn view(&self) -> TransactionRecordV {
        TransactionRecordV {
            signature: self.signature@,
            err: view_opt_string(self.err),
            addresses: self.addresses@.map_values(|a: TouchedAddress| a@),
            memo: view_opt_string(self.memo),
        }
    }
}

/// One ledger entry of a slot.
pub struct EntryRecord {
    pub num_hashes: u64,
    pub hash: Vec<u8>,
    pub num_transactions: u64,
    pub starting_transaction_index: u64,
}

/// The value of an `EntryRecord`.
#[verifier::ext_equal]
pub struct EntryRecordV {
    pub num_hashes: u64,
    pub hash: Seq<u8>,
    pub num_transactions: u64,
    pub starting_transaction_index: u64,
}

impl View for EntryRecord {
    type V = EntryRecordV;

    open spec fn view(&self) -> EntryRecordV {
        EntryRecordV {
            num_hashes: self.num_hashes,
            hash: self.hash@,
            num_transactions: self.num_transactions,
            starting_transaction_index: self.starting_transaction_index,
        }
    }
}

/// One staking or fee reward recorded in a slot's block metadata.
pub struct Reward {
    pub pubkey: String,
    pub lamports: i64,
    pub post_balance: u64,
    pub commission_percent: Option<u8>,
}

/// The value of a `Reward`.
#[verifier::ext_equal]
pub struct RewardV {
    pub pubkey: Seq<char>,
    pub lamports: i64,
    pub post_balance: u64,
    pub commission_percent: Option<u8>,
}

impl View for Reward {
    type V = RewardV;

    open spec fn view(&self) -> RewardV {
        RewardV {
            pubkey: self.pubkey@,
            lamports: self.lamports,
            post_balance: self.post_balance,
            commission_percent: self.commission_percent,
        }
    }
}

/// A slot's progress as the source reports it. The status only ever moves
/// forward, but the same status may be observed many times.
#[derive(Clone, Copy, PartialEq, Eq, Structural, Debug)]
pub enum SlotStatus {
    Processed,
    Rooted,
    Confirmed,
}

/// Everything accumulated for one slot: block metadata, the indexed
/// transaction and entry sequences, the expected counts, and the observed
/// status.
pub struct CosVersionedConfirmedBlockWithEntries {
    pub previous_blockhash: String,
    pub blockhash: String,
    pub parent_slot: u64,
    pub rewards: Vec<Reward>,
    pub block_time: Option<i64>,
    pub block_height: Option<u64>,
    pub transactions: Vec<TransactionRecord>,
    pub entries: Vec<EntryRecord>,
    pub executed_transaction_count: u64,
    pub entry_count: u64,
    pub slot_status: SlotStatus,
}

/// The value of a slot's record.
#[verifier::ext_equal]
pub struct SlotRecordV {
    pub previous_blockhash: Seq<char>,
    pub blockhash: Seq<char>,
    pub parent_slot: u64,
    pub rewards: Seq<RewardV>,
    pub block_time: Option<i64>,
    pub block_height: Option<u64>,
    pub transactions: Seq<TransactionRecordV>,
    pub entries: Seq<EntryRecordV>,
    pub executed_transaction_count: u64,
    pub entry_count: u64,
    pub slot_status: SlotStatus,
}

/// The views of a transaction sequence.
pub open spec fn tx_views(s: Seq<TransactionRecord>) -> Seq<TransactionRecordV> {
    s.map_values(|t: TransactionRecord| t@)
}

/// The views of an entry sequence.
pub open spec fn entry_views(s: Seq<EntryRecord>) -> Seq<EntryRecordV> {
    s.map_values(|e: EntryRecord| e@)
}

impl View for CosVersionedConfirmedBlockWithEntries {
    type V = SlotRecordV;

    open spec fn view(&self) -> SlotRecordV {
        SlotRecordV {
            previous_blockhash: self.previous_blockhash@,
            blockhash: self.blockhash@,
            parent_slot: self.parent_slot,
            rewards: self.rewards@.map_values(|r: Reward| r@),
            block_time: self.block_time,
            block_height: self.block_height,
            transactions: tx_views(self.transactions@),
            entries: entry_views(self.entries@),
            executed_transaction_count: self.executed_transaction_count,
            entry_count: self.entry_count,
            slot_status: self.slot_status,
        }
    }
}

/// The value a slot's record starts from: everything empty, nothing
/// expected yet, status `Processed`.
pub open spec fn spec_empty_record() -> SlotRecordV {
    SlotRecordV {
        previous_blockhash: Seq::empty(),
        blockhash: Seq::empty(),
        parent_slot: 0,
        rewards: Seq::empty(),
        block_time: None,
        block_height: None,
        transactions: Seq::empty(),
        entries: Seq::empty(),
        executed_transaction_count: 0,
        entry_count: 0,
        slot_status: SlotStatus::Processed,
    }
}

impl Default for CosVersionedConfirmedBlockWithEntries {
    /// A fresh record, created lazily on the first event for a slot.
    fn default() -> (r: Self)
        ensures
            r@ == spec_empty_record(),
    {
        let r = CosVersionedConfirmedBlockWithEntries {
            previous_blockhash: String::new(),
            blockhash: String::new(),
            parent_slot: 0,
            rewards: Vec::new(),
            block_time: None,
            block_height: None,
            transactions: Vec::new(),
            entries: Vec::new(),
            executed_transaction_count: 0,
            entry_count: 0,
            slot_status: SlotStatus::Processed,
        };
        proof {
            assert(r@.rewards =~= spec_empty_record().rewards);
            assert(r@.transactions =~= spec_empty_record().transactions);
            assert(r@.entries =~= spec_empty_record().entries);
        }
        r
    }
}

/// Whether a record's value is complete: both sequences have exactly the
/// lengths the block metadata announced. Checked only at finalization,
/// never assumed earlier.
pub open spec fn spec_is_complete(r: SlotRecordV) -> bool {
    r.transactions.len() == r.executed_transaction_count && r.entries.len() == r.entry_count
}

impl CosVersionedConfirmedBlockWithEntries {
    /// Whether this record is complete.
    pub fn is_complete(&self) -> (r: bool)
        ensures
            r == spec_is_complete(self@),
    {
        let tx_len: usize = self.transactions.len();
        let entry_len: usize = self.entries.len();
        tx_len as u64 == self.executed_transaction_count && entry_len as u64 == self.entry_count
    }
}

/// The placeholder standing for a transaction whose event has not arrived
/// yet.
pub open spec fn spec_placeholder_tx() -> TransactionRecordV {
    TransactionRecordV { signature: Seq::empty(), err: None, addresses: Seq::empty(), memo: None }
}

/// Builds the placeholder transaction.
pub fn placeholder_transaction() -> (r: TransactionRecord)
    ensures
        r@ == spec_placeholder_tx(),
{
    let r = TransactionRecord {
        signature: String::new(),
        err: None,
        addresses: Vec::new(),
        memo: None,
    };
    proof {
        assert(r@.addresses =~= spec_placeholder_tx().addresses);
    }
    r
}

/// The placeholder standing for an entry whose event has not arrived yet.
pub open spec fn spec_placeholder_entry() -> EntryRecordV {
    EntryRecordV { num_hashes: 0, hash: Seq::empty(), num_transactions: 0,
        starting_transaction_index: 0 }
}

/// Builds the placeholder entry.
pub fn placeholder_entry() -> (r: EntryRecord)
    ensures
        r@ == spec_placeholder_entry(),
{
    let r = EntryRecord { num_hashes: 0, hash: Vec::new(), num_transactions: 0,
        starting_transaction_index: 0 };
    proof {
        assert(r@.hash =~= spec_placeholder_entry().hash);
    }
    r
}

/// A decoded transaction notification: which slot, which position in the
/// block, and the transaction itself.
pub struct TransactionEvent {
    pub slot: u64,
    pub index: usize,
    pub transaction: TransactionRecord,
}

/// The value of a `TransactionEvent`.
#[verifier::ext_equal]
pub struct TransactionEventV {
    pub slot: u64,
    pub index: usize,
    pub transaction: TransactionRecordV,
}

impl View for TransactionEvent {
    type V = TransactionEventV;

    open spec fn view(&self) -> TransactionEventV {
        TransactionEventV { slot: self.slot, index: self.index, transaction: self.transaction@ }
    }
}

/// A decoded entry notification.
pub struct EntryEvent {
    pub slot: u64,
    pub index: usize,
    pub num_hashes: u64,
    pub hash: Vec<u8>,
    pub executed_transaction_count: u64,
    pub starting_transaction_index: u64,
}

impl EntryEvent {
    /// The entry record this event carries.
    pub fn to_record(self) -> (r: EntryRecord)
        ensures
            r@ == (EntryRecordV {
                num_hashes: self.num_hashes,
                hash: self.hash@,
                num_transactions: self.executed_transaction_count,
                starting_transaction_index: self.starting_transaction_index,
            }),
    {
        EntryRecord {
            num_hashes: self.num_hashes,
            hash: self.hash,
            num_transactions: self.executed_transaction_count,
            starting_transaction_index: self.starting_transaction_index,
        }
    }
}

/// The value of an `EntryEvent`.
#[verifier::ext_equal]
pub struct EntryEventV {
    pub slot: u64,
    pub index: usize,
    pub num_hashes: u64,
    pub hash: Seq<u8>,
    pub executed_transaction_count: u64,
    pub starting_transaction_index: u64,
}

impl View for EntryEvent {
    type V = EntryEventV;

    open spec fn view(&self) -> EntryEventV {
        EntryEventV {
            slot: self.slot,
            index: self.index,
            num_hashes: self.num_hashes,
            hash: self.hash@,
            executed_transaction_count: self.executed_transaction_count,
            starting_transaction_index: self.starting_transaction_index,
        }
    }
}

/// A decoded block-metadata notification: the slot's block header fields
/// and the counts the slot must reach to be complete.
pub struct BlockInfoEvent {
    pub parent_slot: u64,
    pub parent_blockhash: String,
    pub slot: u64,
    pub blockhash: String,
    pub rewards: Vec<Reward>,
    pub block_time: Option<i64>,
    pub block_height: Option<u64>,
    pub executed_transaction_count: u64,
    pub entry_count: u64,
}

/// The value of a `BlockInfoEvent`.
#[verifier::ext_equal]
pub struct BlockInfoEventV {
    pub parent_slot: u64,
    pub parent_blockhash: Seq<char>,
    pub slot: u64,
    pub blockhash: Seq<char>,
    pub rewards: Seq<RewardV>,
    pub block_time: Option<i64>,
    pub block_height: Option<u64>,
    pub executed_transaction_count: u64,
    pub entry_count: u64,
}

impl View for BlockInfoEvent {
    type V = BlockInfoEventV;

    open spec fn view(&self) -> BlockInfoEventV {
        BlockInfoEventV {
            parent_slot: self.parent_slot,
            parent_blockhash: self.parent_blockhash@,
            slot: self.slot,
            blockhash: self.blockhash@,
            rewards: self.rewards@.map_values(|r: Reward| r@),
            block_time: self.block_time,
            block_height: self.block_height,
            executed_transaction_count: self.executed_transaction_count,
            entry_count: self.entry_count,
        }
    }
}

/// Mapping a function over a sequence commutes with appending an element.
pub proof fn lemma_map_values_push<A, B>(s: Seq<A>, f: spec_fn(A) -> B, x: A)
    ensures
        (s.push(x)).map_values(f) == s.map_values(f).push(f(x)),
{
    assert forall|k: int| 0 <= k < s.len() + 1 implies (s.push(x)).map_values(f)[k]
        == s.map_values(f).push(f(x))[k] by {
        if k < s.len() {
            assert(s.push(x)[k] == s[k]);
        } else {
            assert(s.push(x)[k] == x);
        }
    }
    assert((s.push(x)).map_values(f) =~= s.map_values(f).push(f(x)));
}

/// Mapping a function over a sequence commutes with concatenation.
pub proof fn lemma_map_values_concat<A, B>(a: Seq<A>, b: Seq<A>, f: spec_fn(A) -> B)
    ensures
        (a + b).map_values(f) == a.map_values(f) + b.map_values(f),
{
    assert forall|k: int| 0 <= k < a.len() + b.len() implies (a + b).map_values(f)[k]
        == (a.map_values(f) + b.map_values(f))[k] by {
        if k < a.len() {
            assert((a + b)[k] == a[k]);
        } else {
            assert((a + b)[k] == b[k - a.len()]);
        }
    }
    assert((a + b).map_values(f) =~= a.map_values(f) + b.map_values(f));
}

/// Mapping a function over a sequence commutes with updating a position.
pub proof fn lemma_map_values_update<A, B>(s: Seq<A>, f: spec_fn(A) -> B, i: int, x: A)
    requires
        0 <= i < s.len(),
    ensures
        s.update(i, x).map_values(f) == s.map_values(f).update(i, f(x)),
{
    assert forall|k: int| 0 <= k < s.len() implies s.update(i, x).map_values(f)[k]
        == s.map_values(f).update(i, f(x))[k] by {
        if k == i {
            assert(s.update(i, x)[k] == x);
        } else {
            assert(s.update(i, x)[k] == s[k]);
        }
    }
    assert(s.update(i, x).map_values(f) =~= s.map_values(f).update(i, f(x)));
}

/// Index-addressed placement: grows `s` with placeholders until position
/// `i` exists, then overwrites position `i` with `v`.
pub open spec fn spec_sparse_set<T>(s: Seq<T>, ph: T, i: int, v: T) -> Seq<T>
    recommends
        i >= 0,
{
    if i < s.len() {
        s.update(i, v)
    } else {
        (s + Seq::new((i + 1 - s.len()) as nat, |_j: int| ph)).update(i, v)
    }
}

/// Places `tx` at position `index` of the transaction sequence, filling any
/// gap with placeholders.
pub fn grow_and_set_transaction(v: &mut Vec<TransactionRecord>, index: usize,
    tx: TransactionRecord)
    ensures
        tx_views(final(v)@) == spec_sparse_set(
            tx_views(old(v)@),
            spec_placeholder_tx(),
            index as int,
            tx@,
        ),
{
    while v.len() <= index
        invariant
            tx_views(v@) == tx_views(old(v)@) + Seq::new(
                (v@.len() - old(v)@.len()) as nat,
                |_j: int| spec_placeholder_tx(),
            ) || v@ == old(v)@,
            v@.len() >= old(v)@.len(),
            v@.len() <= old(v)@.len() || v@.len() <= index + 1,
        decreases index + 1 - v@.len(),
    {
        proof {
            if v@ == old(v)@ {
                assert(tx_views(v@) =~= tx_views(old(v)@) + Seq::new(
                    0,
                    |_j: int| spec_placeholder_tx(),
                ));
            }
        }
        let ghost pre = v@;
        v.push(placeholder_transaction());
        proof {
            let oldv = old(v)@;
            let newlen = v@.len() as int;
            let target = tx_views(oldv) + Seq::new(
                (newlen - oldv.len()) as nat,
                |_j: int| spec_placeholder_tx(),
            );
            assert(v@ == pre.push(v@.last()));
            assert(tx_views(v@).len() == newlen);
            assert(target.len() == newlen);
            assert forall|j: int| 0 <= j < newlen implies tx_views(v@)[j] == target[j] by {
                assert(tx_views(v@)[j] == v@[j]@);
                if j < newlen - 1 {
                    assert(v@[j] == pre[j]);
                    assert(tx_views(pre)[j] == pre[j]@);
                    assert(tx_views(pre)[j] == target[j]);
                } else {
                    assert(v@[j]@ == spec_placeholder_tx());
                    assert(target[j] == spec_placeholder_tx());
                }
            }
            assert(tx_views(v@) =~= target);
        }
    }
    v[index] = tx;
    assert(tx_views(v@) =~= spec_sparse_set(
        tx_views(old(v)@),
        spec_placeholder_tx(),
        index as int,
        tx@,
    ));
}

/// Places `e` at position `index` of the entry sequence, filling any gap
/// with placeholders.
pub fn grow_and_set_entry(v: &mut Vec<EntryRecord>, index: usize, e: EntryRecord)
    ensures
        entry_views(final(v)@) == spec_sparse_set(
            entry_views(old(v)@),
            spec_placeholder_entry(),
            index as int,
            e@,
        ),
{
    while v.len() <= index
        invariant
            entry_views(v@) == entry_views(old(v)@) + Seq::new(
                (v@.len() - old(v)@.len()) as nat,
                |_j: int| spec_placeholder_entry(),
            ) || v@ == old(v)@,
            v@.len() >= old(v)@.len(),
            v@.len() <= old(v)@.len() || v@.len() <= index + 1,
        decreases index + 1 - v@.len(),
    {
        proof {
            if v@ == old(v)@ {
                assert(entry_views(v@) =~= entry_views(old(v)@) + Seq::new(
                    0,
                    |_j: int| spec_placeholder_entry(),
                ));
            }
        }
        let ghost pre = v@;
        v.push(placeholder_entry());
        proof {
            let oldv = old(v)@;
            let newlen = v@.len() as int;
            let target = entry_views(oldv) + Seq::new(
                (newlen - oldv.len()) as nat,
                |_j: int| spec_placeholder_entry(),
            );
            assert(v@ == pre.push(v@.last()));
            assert(entry_views(v@).len() == newlen);
            assert(target.len() == newlen);
            assert forall|j: int| 0 <= j < newlen implies entry_views(v@)[j] == target[j] by {
                assert(entry_views(v@)[j] == v@[j]@);
                if j < newlen - 1 {
                    assert(v@[j] == pre[j]);
                    assert(entry_views(pre)[j] == pre[j]@);
                    assert(entry_views(pre)[j] == target[j]);
                } else {
                    assert(v@[j]@ == spec_placeholder_entry());
                    assert(target[j] == spec_placeholder_entry());
                }
            }
            assert(entry_views(v@) =~= target);
        }
    }
    v[index] = e;
    assert(entry_views(v@) =~= spec_sparse_set(
        entry_views(old(v)@),
        spec_placeholder_entry(),
        index as int,
        e@,
    ));
}

/// Applies index-addressed placements one after another, starting from `s`.
pub open spec fn spec_apply_ops<T>(s: Seq<T>, ph: T, ops: Seq<(int, T)>) -> Seq<T>
    decreases ops.len(),
{
    if ops.len() == 0 {
        s
    } else {
        spec_sparse_set(spec_apply_ops(s, ph, ops.drop_last()), ph, ops.last().0, ops.last().1)
    }
}

/// The value the latest placement at position `j` carried, if any.
pub open spec fn spec_last_val<T>(ops: Seq<(int, T)>, j: int) -> Option<T>
    decreases ops.len(),
{
    if ops.len() == 0 {
        None
    } else if ops.last().0 == j {
        Some(ops.last().1)
    } else {
        spec_last_val(ops.drop_last(), j)
    }
}

/// After any run of placements with positions below `n`, starting from
/// empty: the sequence never grows past `n`, every placed position exists,
/// and each position holds the value last placed there, or the placeholder
/// if none ever was.
pub proof fn lemma_apply_ops<T>(ph: T, ops: Seq<(int, T)>, n: int)
    requires
        n >= 0,
        forall|k: int| 0 <= k < ops.len() ==> 0 <= #[trigger] ops[k].0 < n,
    ensures
        spec_apply_ops(Seq::<T>::empty(), ph, ops).len() <= n,
        forall|k: int|
            0 <= k < ops.len() ==> #[trigger] ops[k].0 < spec_apply_ops(
                Seq::<T>::empty(),
                ph,
                ops,
            ).len(),
        forall|j: int|
            0 <= j < spec_apply_ops(Seq::<T>::empty(), ph, ops).len()
                ==> #[trigger] spec_apply_ops(Seq::<T>::empty(), ph, ops)[j] == (
            match spec_last_val(ops, j) {
                Some(v) => v,
                None => ph,
            }),
    decreases ops.len(),
{
    if ops.len() > 0 {
        let prev_ops = ops.drop_last();
        assert(forall|k: int| 0 <= k < prev_ops.len() ==> prev_ops[k] == ops[k]);
        lemma_apply_ops(ph, prev_ops, n);
        let prev = spec_apply_ops(Seq::<T>::empty(), ph, prev_ops);
        let r = spec_apply_ops(Seq::<T>::empty(), ph, ops);
        let i = ops.last().0;
        assert(r == spec_sparse_set(prev, ph, i, ops.last().1));
        assert(forall|j: int|
            0 <= j < prev.len() ==> spec_last_val(prev_ops, j) == spec_last_val(ops, j) || j == i);
        assert forall|j: int| prev.len() <= j < r.len() && j != i implies spec_last_val(ops, j)
            is None by {
            lemma_last_val_none(prev_ops, j);
        }
    }
}

/// A position no placement named holds nothing.
pub proof fn lemma_last_val_none<T>(ops: Seq<(int, T)>, j: int)
    requires
        forall|k: int| 0 <= k < ops.len() ==> #[trigger] ops[k].0 != j,
    ensures
        spec_last_val(ops, j) is None,
    decreases ops.len(),
{
    if ops.len() > 0 {
        let prev_ops = ops.drop_last();
        assert(forall|k: int| 0 <= k < prev_ops.len() ==> prev_ops[k] == ops[k]);
        lemma_last_val_none(prev_ops, j);
    }
}

/// The latest placement at a position is the only one, when no two
/// placements share a position.
pub proof fn lemma_last_val_unique<T>(ops: Seq<(int, T)>, k: int)
    requires
        forall|k1: int, k2: int|
            0 <= k1 < ops.len() && 0 <= k2 < ops.len() && k1 != k2 ==> #[trigger] ops[k1].0
                != #[trigger] ops[k2].0,
        0 <= k < ops.len(),
    ensures
        spec_last_val(ops, ops[k].0) == Some(ops[k].1),
    decreases ops.len(),
{
    if k < ops.len() - 1 {
        assert(ops.last().0 != ops[k].0);
        let prev_ops = ops.drop_last();
        assert(forall|k1: int| 0 <= k1 < prev_ops.len() ==> prev_ops[k1] == ops[k1]);
        lemma_last_val_unique(prev_ops, k);
    }
}

/// Whether some placement names position `j`.
pub open spec fn spec_covers<T>(ops: Seq<(int, T)>, j: int) -> bool {
    exists|k: int| 0 <= k < ops.len() && #[trigger] ops[k].0 == j
}

/// Order-independence of assembly: two deliveries of the same placements —
/// one per position, positions covering `0..n` — assemble, from empty, the
/// same sequence, whatever order each delivery used; and that sequence has
/// length `n` and holds each placement's value at its position.
pub proof fn lemma_assembly_order_independence<T>(
    ph: T,
    ops1: Seq<(int, T)>,
    ops2: Seq<(int, T)>,
    n: int,
)
    requires
        n >= 0,
        ops1.len() == n,
        ops2.len() == n,
        forall|k: int| 0 <= k < n ==> 0 <= #[trigger] ops1[k].0 < n,
        forall|k: int| 0 <= k < n ==> 0 <= #[trigger] ops2[k].0 < n,
        forall|k1: int, k2: int|
            0 <= k1 < n && 0 <= k2 < n && k1 != k2 ==> #[trigger] ops1[k1].0 != #[trigger] ops1[k2].0,
        forall|k1: int, k2: int|
            0 <= k1 < n && 0 <= k2 < n && k1 != k2 ==> #[trigger] ops2[k1].0 != #[trigger] ops2[k2].0,
        forall|j: int| 0 <= j < n ==> #[trigger] spec_covers(ops1, j),
        ops1.to_multiset() == ops2.to_multiset(),
    ensures
        spec_apply_ops(Seq::<T>::empty(), ph, ops1) == spec_apply_ops(Seq::<T>::empty(), ph, ops2),
        spec_apply_ops(Seq::<T>::empty(), ph, ops1).len() == n,
        forall|k: int|
            0 <= k < n ==> #[trigger] spec_apply_ops(Seq::<T>::empty(), ph, ops1)[ops1[k].0]
                == ops1[k].1,
{
    broadcast use vstd::seq_lib::group_to_multiset_ensures;

    lemma_apply_ops(ph, ops1, n);
    lemma_apply_ops(ph, ops2, n);
    let r1 = spec_apply_ops(Seq::<T>::empty(), ph, ops1);
    let r2 = spec_apply_ops(Seq::<T>::empty(), ph, ops2);
    if n > 0 {
        assert(spec_covers(ops1, n - 1));
        let k = choose|k: int| 0 <= k < ops1.len() && #[trigger] ops1[k].0 == n - 1;
        assert(r1.len() == n);
        assert(ops1.contains(ops1[k]));
        assert(ops1.to_multiset().contains(ops1[k]));
        assert(ops2.contains(ops1[k]));
        let k2 = choose|k2: int| 0 <= k2 < ops2.len() && ops2[k2] == ops1[k];
        assert(ops2[k2].0 == n - 1);
        assert(r2.len() == n);
    }
    assert forall|k: int| 0 <= k < n implies #[trigger] r1[ops1[k].0] == ops1[k].1 by {
        lemma_last_val_unique(ops1, k);
    }
    assert forall|j: int| 0 <= j < n implies r2[j] == r1[j] by {
        assert(spec_covers(ops1, j));
        let k = choose|k: int| 0 <= k < ops1.len() && #[trigger] ops1[k].0 == j;
        lemma_last_val_unique(ops1, k);
        assert(ops1.contains(ops1[k]));
        assert(ops1.to_multiset().contains(ops1[k]));
        assert(ops2.contains(ops1[k]));
        let k2 = choose|k2: int| 0 <= k2 < ops2.len() && ops2[k2] == ops1[k];
        lemma_last_val_unique(ops2, k2);
        assert(ops2[k2].0 < r2.len());
        assert(r2[j] == ops2[k2].1);
    }
    assert(r1 =~= r2);
}

} // verus!
