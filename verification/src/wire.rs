//! The wire form of plugin events in the write-ahead log.
//!
//! Every logged notification is one `PluginEvent`: a closed tagged union
//! with one case per event kind, so a log reader can tell each record's
//! kind from its first byte and a new kind means a new case and a new
//! handler. Encoding is exact and decoding is proved to invert it: a
//! replayed log yields the very events that were logged.

use vstd::prelude::*;
use vstd::utf8::{encode_utf8, decode_utf8, valid_utf8};
use crate::bytes::{enc_u64_le, dec_u64_le, lemma_u64_le_round_trip, put_u64_le, append_bytes};
use crate::encode::{enc_str, enc_opt_str, enc_opt_u64, enc_opt_i64, enc_opt_u8, enc_reward, put_str,
    put_opt_str, put_opt_u64, put_opt_i64, put_opt_u8};
use crate::records::{SlotStatus, TransactionEvent, EntryEvent, BlockInfoEvent, TransactionRecord,
    TransactionRecordV, TouchedAddress, TouchedAddressV, Reward, RewardV, BlockInfoEventV,
    view_opt_string};

verus! {

/// Reading a 64-bit integer at `pos`: the value and the next position.
pub open spec fn dec_u64_at(b: Seq<u8>, pos: int) -> Option<(u64, int)> {
    if 0 <= pos && pos + 8 <= b.len() {
        Some((dec_u64_le(b.subrange(pos, pos + 8)), pos + 8))
    } else {
        None
    }
}

/// Reading one byte at `pos`.
pub open spec fn dec_u8_at(b: Seq<u8>, pos: int) -> Option<(u8, int)> {
    if 0 <= pos && pos + 1 <= b.len() {
        Some((b[pos], pos + 1))
    } else {
        None
    }
}

/// Reading a length-prefixed byte run at `pos`.
pub open spec fn dec_bytes_at(b: Seq<u8>, pos: int) -> Option<(Seq<u8>, int)> {
    match dec_u64_at(b, pos) {
        None => None,
        Some((n, p)) => if p + n <= b.len() {
            Some((b.subrange(p, p + n), p + n))
        } else {
            None
        },
    }
}

/// Reading a length-prefixed UTF-8 string at `pos`.
pub open spec fn dec_str_at(b: Seq<u8>, pos: int) -> Option<(Seq<char>, int)> {
    match dec_bytes_at(b, pos) {
        None => None,
        Some((bytes, p)) => if valid_utf8(bytes) {
            Some((decode_utf8(bytes), p))
        } else {
            None
        },
    }
}

/// Reading an optional string at `pos`.
pub open spec fn dec_opt_str_at(b: Seq<u8>, pos: int) -> Option<(Option<Seq<char>>, int)> {
    match dec_u8_at(b, pos) {
        None => None,
        Some((tag, p)) => if tag == 0 {
            Some((None, p))
        } else if tag == 1 {
            match dec_str_at(b, p) {
                None => None,
                Some((s, p2)) => Some((Some(s), p2)),
            }
        } else {
            None
        },
    }
}

/// Reading an optional 64-bit integer at `pos`.
pub open spec fn dec_opt_u64_at(b: Seq<u8>, pos: int) -> Option<(Option<u64>, int)> {
    match dec_u8_at(b, pos) {
        None => None,
        Some((tag, p)) => if tag == 0 {
            Some((None, p))
        } else if tag == 1 {
            match dec_u64_at(b, p) {
                None => None,
                Some((v, p2)) => Some((Some(v), p2)),
            }
        } else {
            None
        },
    }
}

/// Reading an optional signed 64-bit integer at `pos`.
pub open spec fn dec_opt_i64_at(b: Seq<u8>, pos: int) -> Option<(Option<i64>, int)> {
    match dec_opt_u64_at(b, pos) {
        None => None,
        Some((v, p)) => Some((
            match v {
                None => None,
                Some(n) => Some(n as i64),
            },
            p,
        )),
    }
}

/// Reading an optional byte at `pos`.
pub open spec fn dec_opt_u8_at(b: Seq<u8>, pos: int) -> Option<(Option<u8>, int)> {
    match dec_u8_at(b, pos) {
        None => None,
        Some((tag, p)) => if tag == 0 {
            Some((None, p))
        } else if tag == 1 {
            match dec_u8_at(b, p) {
                None => None,
                Some((v, p2)) => Some((Some(v), p2)),
            }
        } else {
            None
        },
    }
}

/// Reading a 64-bit integer where its encoding stands yields it back.
pub proof fn lemma_dec_u64_after(prefix: Seq<u8>, v: u64, b: Seq<u8>)
    requires
        b.subrange(prefix.len() as int, (prefix.len() + 8) as int) == enc_u64_le(v),
        prefix.len() + 8 <= b.len(),
    ensures
        dec_u64_at(b, prefix.len() as int) == Some((v, (prefix.len() + 8) as int)),
{
    lemma_u64_le_round_trip(v);
}

/// Reading a byte run where its encoding stands yields it back.
pub proof fn lemma_dec_bytes_after(prefix: Seq<u8>, data: Seq<u8>, b: Seq<u8>)
    requires
        data.len() <= u64::MAX,
        b.subrange(prefix.len() as int, (prefix.len() + 8 + data.len()) as int) == enc_u64_le(
            data.len() as u64,
        ) + data,
        prefix.len() + 8 + data.len() <= b.len(),
    ensures
        dec_bytes_at(b, prefix.len() as int) == Some(
            (data, (prefix.len() + 8 + data.len()) as int),
        ),
{
    let pos = prefix.len() as int;
    let whole = b.subrange(pos, pos + 8 + data.len());
    assert(forall|i: int| 0 <= i < whole.len() ==> #[trigger] whole[i] == b[pos + i]);
    assert(b.subrange(pos, pos + 8) =~= enc_u64_le(data.len() as u64));
    lemma_u64_le_round_trip(data.len() as u64);
    let tail = b.subrange(pos + 8, pos + 8 + data.len());
    assert forall|i: int| 0 <= i < data.len() implies #[trigger] tail[i] == data[i] by {
        assert(tail[i] == b[pos + 8 + i]);
        assert(whole[8 + i] == b[pos + 8 + i]);
        assert(whole[8 + i] == (enc_u64_le(data.len() as u64) + data)[8 + i]);
    }
    assert(tail =~= data);
}

/// Reading a string where its encoding stands yields it back.
pub proof fn lemma_dec_str_after(prefix: Seq<u8>, s: Seq<char>, b: Seq<u8>)
    requires
        encode_utf8(s).len() <= u64::MAX,
        b.subrange(prefix.len() as int, (prefix.len() + 8 + encode_utf8(s).len()) as int) == enc_str(s),
        prefix.len() + 8 + encode_utf8(s).len() <= b.len(),
    ensures
        dec_str_at(b, prefix.len() as int) == Some(
            (s, (prefix.len() + 8 + encode_utf8(s).len()) as int),
        ),
{
    broadcast use vstd::utf8::encode_utf8_valid_utf8, vstd::utf8::encode_utf8_decode_utf8;

    lemma_dec_bytes_after(prefix, encode_utf8(s), b);
}

/// A piece of a larger encoded run, located within the surrounding buffer.
pub proof fn lemma_piece_at(b: Seq<u8>, p0: int, whole: Seq<u8>, k: int, piece: Seq<u8>)
    requires
        0 <= p0,
        p0 + whole.len() <= b.len(),
        b.subrange(p0, p0 + whole.len()) == whole,
        0 <= k,
        k + piece.len() <= whole.len(),
        whole.subrange(k, k + piece.len()) == piece,
    ensures
        b.subrange(p0 + k, p0 + k + piece.len()) == piece,
{
    let target = b.subrange(p0 + k, p0 + k + piece.len());
    assert forall|i: int| 0 <= i < piece.len() implies #[trigger] target[i] == piece[i] by {
        assert(target[i] == b[p0 + k + i]);
        assert(b.subrange(p0, p0 + whole.len())[k + i] == b[p0 + k + i]);
        assert(whole.subrange(k, k + piece.len())[i] == whole[k + i]);
    }
    assert(target =~= piece);
}

/// Both halves of a two-part run, located within it.
pub proof fn lemma_concat_pieces(x: Seq<u8>, y: Seq<u8>)
    ensures
        (x + y).subrange(0, x.len() as int) == x,
        (x + y).subrange(x.len() as int, (x.len() + y.len()) as int) == y,
{
    assert((x + y).subrange(0, x.len() as int) =~= x);
    assert((x + y).subrange(x.len() as int, (x.len() + y.len()) as int) =~= y);
}

/// A string whose UTF-8 form fits the length prefix.
pub open spec fn str_ok(s: Seq<char>) -> bool {
    encode_utf8(s).len() <= u64::MAX
}

/// An optional string whose UTF-8 form fits the length prefix.
pub open spec fn opt_str_ok(o: Option<Seq<char>>) -> bool {
    match o {
        None => true,
        Some(s) => str_ok(s),
    }
}

/// Reading one byte where its encoding stands yields it back.
pub proof fn lemma_dec_u8_after(prefix: Seq<u8>, v: u8, b: Seq<u8>)
    requires
        b.subrange(prefix.len() as int, (prefix.len() + 1) as int) == seq![v],
        prefix.len() + 1 <= b.len(),
    ensures
        dec_u8_at(b, prefix.len() as int) == Some((v, (prefix.len() + 1) as int)),
{
    let pos = prefix.len() as int;
    assert(b.subrange(pos, pos + 1)[0] == b[pos]);
}

/// Reading an optional string where its encoding stands yields it back.
pub proof fn lemma_dec_opt_str_after(prefix: Seq<u8>, o: Option<Seq<char>>, b: Seq<u8>)
    requires
        opt_str_ok(o),
        b.subrange(prefix.len() as int, (prefix.len() + enc_opt_str(o).len()) as int)
            == enc_opt_str(o),
        prefix.len() + enc_opt_str(o).len() <= b.len(),
    ensures
        dec_opt_str_at(b, prefix.len() as int) == Some(
            (o, (prefix.len() + enc_opt_str(o).len()) as int),
        ),
{
    let p0 = prefix.len() as int;
    let whole = enc_opt_str(o);
    match o {
        None => {
            assert(whole.subrange(0, 1) =~= seq![0u8]);
            lemma_piece_at(b, p0, whole, 0, seq![0u8]);
            lemma_dec_u8_after(prefix, 0u8, b);
        },
        Some(s) => {
            assert(whole.subrange(0, 1) =~= seq![1u8]);
            lemma_piece_at(b, p0, whole, 0, seq![1u8]);
            lemma_dec_u8_after(prefix, 1u8, b);
            assert(whole.subrange(1, (1 + enc_str(s).len()) as int) =~= enc_str(s));
            lemma_piece_at(b, p0, whole, 1, enc_str(s));
            lemma_dec_str_after(b.subrange(0, p0 + 1), s, b);
        },
    }
}

/// Reading an optional 64-bit integer where its encoding stands yields it
/// back.
pub proof fn lemma_dec_opt_u64_after(prefix: Seq<u8>, o: Option<u64>, b: Seq<u8>)
    requires
        b.subrange(prefix.len() as int, (prefix.len() + enc_opt_u64(o).len()) as int)
            == enc_opt_u64(o),
        prefix.len() + enc_opt_u64(o).len() <= b.len(),
    ensures
        dec_opt_u64_at(b, prefix.len() as int) == Some(
            (o, (prefix.len() + enc_opt_u64(o).len()) as int),
        ),
{
    let p0 = prefix.len() as int;
    let whole = enc_opt_u64(o);
    match o {
        None => {
            assert(whole.subrange(0, 1) =~= seq![0u8]);
            lemma_piece_at(b, p0, whole, 0, seq![0u8]);
            lemma_dec_u8_after(prefix, 0u8, b);
        },
        Some(v) => {
            assert(whole.subrange(0, 1) =~= seq![1u8]);
            lemma_piece_at(b, p0, whole, 0, seq![1u8]);
            lemma_dec_u8_after(prefix, 1u8, b);
            assert(whole.subrange(1, 9) =~= enc_u64_le(v));
            lemma_piece_at(b, p0, whole, 1, enc_u64_le(v));
            lemma_dec_u64_after(b.subrange(0, p0 + 1), v, b);
        },
    }
}

/// Reading an optional signed integer where its encoding stands yields it
/// back.
pub proof fn lemma_dec_opt_i64_after(prefix: Seq<u8>, o: Option<i64>, b: Seq<u8>)
    requires
        b.subrange(prefix.len() as int, (prefix.len() + enc_opt_i64(o).len()) as int)
            == enc_opt_i64(o),
        prefix.len() + enc_opt_i64(o).len() <= b.len(),
    ensures
        dec_opt_i64_at(b, prefix.len() as int) == Some(
            (o, (prefix.len() + enc_opt_i64(o).len()) as int),
        ),
{
    let ou64 = match o {
        None => None,
        Some(n) => Some(n as u64),
    };
    assert(enc_opt_i64(o) =~= enc_opt_u64(ou64));
    lemma_dec_opt_u64_after(prefix, ou64, b);
    match o {
        None => {},
        Some(n) => {
            assert(((n as u64) as i64) == n) by (bit_vector);
        },
    }
}

/// Reading an optional byte where its encoding stands yields it back.
pub proof fn lemma_dec_opt_u8_after(prefix: Seq<u8>, o: Option<u8>, b: Seq<u8>)
    requires
        b.subrange(prefix.len() as int, (prefix.len() + enc_opt_u8(o).len()) as int)
            == enc_opt_u8(o),
        prefix.len() + enc_opt_u8(o).len() <= b.len(),
    ensures
        dec_opt_u8_at(b, prefix.len() as int) == Some(
            (o, (prefix.len() + enc_opt_u8(o).len()) as int),
        ),
{
    let p0 = prefix.len() as int;
    let whole = enc_opt_u8(o);
    match o {
        None => {
            assert(whole.subrange(0, 1) =~= seq![0u8]);
            lemma_piece_at(b, p0, whole, 0, seq![0u8]);
            lemma_dec_u8_after(prefix, 0u8, b);
        },
        Some(v) => {
            assert(whole.subrange(0, 1) =~= seq![1u8]);
            lemma_piece_at(b, p0, whole, 0, seq![1u8]);
            lemma_dec_u8_after(prefix, 1u8, b);
            assert(whole.subrange(1, 2) =~= seq![v]);
            lemma_piece_at(b, p0, whole, 1, seq![v]);
            lemma_dec_u8_after(b.subrange(0, p0 + 1), v, b);
        },
    }
}

/// One logged notification: a closed union with one case per event kind.
pub enum PluginEvent {
    Status { slot: u64, status: SlotStatus },
    Transaction(TransactionEvent),
    BlockInfo(BlockInfoEvent),
    Entry(EntryEvent),
}

/// The value of a `PluginEvent`.
#[verifier::ext_equal]
pub enum PluginEventV {
    Status { slot: u64, status: SlotStatus },
    Transaction(crate::records::TransactionEventV),
    BlockInfo(BlockInfoEventV),
    Entry(crate::records::EntryEventV),
}

impl View for PluginEvent {
    type V = PluginEventV;

    open spec fn view(&self) -> PluginEventV {
        match self {
            PluginEvent::Status { slot, status } => PluginEventV::Status {
                slot: *slot,
                status: *status,
            },
            PluginEvent::Transaction(t) => PluginEventV::Transaction(t@),
            PluginEvent::BlockInfo(b) => PluginEventV::BlockInfo(b@),
            PluginEvent::Entry(e) => PluginEventV::Entry(e@),
        }
    }
}

/// The byte naming a slot status on the wire.
pub open spec fn spec_status_tag(s: SlotStatus) -> u8 {
    match s {
        SlotStatus::Processed => 0,
        SlotStatus::Rooted => 1,
        SlotStatus::Confirmed => 2,
    }
}

/// The encoding of one touched address: its key, then a reserved flag.
pub open spec fn enc_address(a: TouchedAddressV) -> Seq<u8> {
    enc_str(a.key) + seq![
        if a.reserved {
            1u8
        } else {
            0u8
        },
    ]
}

/// The encoding of a list of touched addresses, front first.
pub open spec fn enc_address_items(s: Seq<TouchedAddressV>) -> Seq<u8>
    decreases s.len(),
{
    if s.len() == 0 {
        Seq::empty()
    } else {
        enc_address(s[0]) + enc_address_items(s.drop_first())
    }
}

/// Appending one address extends the list's encoding at the end.
proof fn lemma_enc_address_items_snoc(s: Seq<TouchedAddressV>, a: TouchedAddressV)
    ensures
        enc_address_items(s.push(a)) == enc_address_items(s) + enc_address(a),
    decreases s.len(),
{
    if s.len() == 0 {
        assert(s.push(a).drop_first() =~= Seq::<TouchedAddressV>::empty());
        assert(enc_address_items(Seq::<TouchedAddressV>::empty()) == Seq::<u8>::empty());
        assert(enc_address_items(s.push(a)) =~= enc_address_items(s) + enc_address(a));
    } else {
        assert(s.push(a)[0] == s[0]);
        assert(s.push(a).drop_first() =~= s.drop_first().push(a));
        lemma_enc_address_items_snoc(s.drop_first(), a);
        assert(enc_address_items(s.push(a)) =~= enc_address_items(s) + enc_address(a));
    }
}

/// The encoding of a list of rewards, front first.
pub open spec fn enc_reward_list(s: Seq<RewardV>) -> Seq<u8>
    decreases s.len(),
{
    if s.len() == 0 {
        Seq::empty()
    } else {
        enc_reward(s[0]) + enc_reward_list(s.drop_first())
    }
}

/// Appending one reward extends the list's encoding at the end.
proof fn lemma_enc_reward_list_snoc(s: Seq<RewardV>, r: RewardV)
    ensures
        enc_reward_list(s.push(r)) == enc_reward_list(s) + enc_reward(r),
    decreases s.len(),
{
    if s.len() == 0 {
        assert(s.push(r).drop_first() =~= Seq::<RewardV>::empty());
        assert(enc_reward_list(Seq::<RewardV>::empty()) == Seq::<u8>::empty());
        assert(enc_reward_list(s.push(r)) =~= enc_reward_list(s) + enc_reward(r));
    } else {
        assert(s.push(r)[0] == s[0]);
        assert(s.push(r).drop_first() =~= s.drop_first().push(r));
        lemma_enc_reward_list_snoc(s.drop_first(), r);
        assert(enc_reward_list(s.push(r)) =~= enc_reward_list(s) + enc_reward(r));
    }
}

/// The encoding of one transaction record on the wire.
pub open spec fn enc_tx_record(t: TransactionRecordV) -> Seq<u8> {
    enc_str(t.signature) + enc_opt_str(t.err) + enc_u64_le(t.addresses.len() as u64)
        + enc_address_items(t.addresses) + enc_opt_str(t.memo)
}

/// The wire form of one event: a kind byte, then the fields of that kind.
pub open spec fn spec_enc_event(e: PluginEventV) -> Seq<u8> {
    match e {
        PluginEventV::Status { slot, status } => seq![0u8] + enc_u64_le(slot) + seq![
            spec_status_tag(status),
        ],
        PluginEventV::Transaction(t) => seq![1u8] + enc_u64_le(t.slot) + enc_u64_le(
            t.index as u64,
        ) + enc_tx_record(t.transaction),
        PluginEventV::BlockInfo(b) => enc_block_info_body(b),
        PluginEventV::Entry(en) => seq![3u8] + enc_u64_le(en.slot) + enc_u64_le(en.index as u64)
            + enc_u64_le(en.num_hashes) + enc_u64_le(en.hash.len() as u64) + en.hash + enc_u64_le(
            en.executed_transaction_count,
        ) + enc_u64_le(en.starting_transaction_index),
    }
}

/// Reading one touched address at `pos`.
pub open spec fn dec_address_at(b: Seq<u8>, pos: int) -> Option<(TouchedAddressV, int)> {
    match dec_str_at(b, pos) {
        None => None,
        Some((key, p)) => match dec_u8_at(b, p) {
            None => None,
            Some((flag, p2)) => if flag == 0 {
                Some((TouchedAddressV { key, reserved: false }, p2))
            } else if flag == 1 {
                Some((TouchedAddressV { key, reserved: true }, p2))
            } else {
                None
            },
        },
    }
}

/// Reading `n` touched addresses at `pos`.
pub open spec fn dec_addresses_at(b: Seq<u8>, pos: int, n: int) -> Option<
    (Seq<TouchedAddressV>, int),
>
    decreases n,
{
    if n <= 0 {
        Some((Seq::empty(), pos))
    } else {
        match dec_address_at(b, pos) {
            None => None,
            Some((a, p)) => match dec_addresses_at(b, p, n - 1) {
                None => None,
                Some((rest, p2)) => Some((seq![a] + rest, p2)),
            },
        }
    }
}

/// Reading one transaction record at `pos`.
pub open spec fn dec_tx_record_at(b: Seq<u8>, pos: int) -> Option<(TransactionRecordV, int)> {
    match dec_str_at(b, pos) {
        None => None,
        Some((signature, p1)) => match dec_opt_str_at(b, p1) {
            None => None,
            Some((err, p2)) => match dec_u64_at(b, p2) {
                None => None,
                Some((n, p3)) => match dec_addresses_at(b, p3, n as int) {
                    None => None,
                    Some((addresses, p4)) => match dec_opt_str_at(b, p4) {
                        None => None,
                        Some((memo, p5)) => Some(
                            (TransactionRecordV { signature, err, addresses, memo }, p5),
                        ),
                    },
                },
            },
        },
    }
}

/// Reading one reward at `pos`.
pub open spec fn dec_reward_at(b: Seq<u8>, pos: int) -> Option<(RewardV, int)> {
    match dec_str_at(b, pos) {
        None => None,
        Some((pubkey, p1)) => match dec_u64_at(b, p1) {
            None => None,
            Some((lamports, p2)) => match dec_u64_at(b, p2) {
                None => None,
                Some((post_balance, p3)) => match dec_opt_u8_at(b, p3) {
                    None => None,
                    Some((commission_percent, p4)) => Some(
                        (
                            RewardV {
                                pubkey,
                                lamports: lamports as i64,
                                post_balance,
                                commission_percent,
                            },
                            p4,
                        ),
                    ),
                },
            },
        },
    }
}

/// Reading `n` rewards at `pos`.
pub open spec fn dec_rewards_at(b: Seq<u8>, pos: int, n: int) -> Option<(Seq<RewardV>, int)>
    decreases n,
{
    if n <= 0 {
        Some((Seq::empty(), pos))
    } else {
        match dec_reward_at(b, pos) {
            None => None,
            Some((r, p)) => match dec_rewards_at(b, p, n - 1) {
                None => None,
                Some((rest, p2)) => Some((seq![r] + rest, p2)),
            },
        }
    }
}

/// What a whole wire record decodes to: the event, provided every field
/// reads back and nothing trails it.
pub open spec fn spec_dec_event(b: Seq<u8>) -> Option<PluginEventV> {
    match dec_u8_at(b, 0) {
        None => None,
        Some((kind, p0)) => if kind == 0 {
            match dec_u64_at(b, p0) {
                None => None,
                Some((slot, p1)) => match dec_u8_at(b, p1) {
                    None => None,
                    Some((st, p2)) => if p2 == b.len() && st <= 2 {
                        Some(
                            PluginEventV::Status {
                                slot,
                                status: if st == 0 {
                                    SlotStatus::Processed
                                } else if st == 1 {
                                    SlotStatus::Rooted
                                } else {
                                    SlotStatus::Confirmed
                                },
                            },
                        )
                    } else {
                        None
                    },
                },
            }
        } else if kind == 1 {
            match dec_u64_at(b, p0) {
                None => None,
                Some((slot, p1)) => match dec_u64_at(b, p1) {
                    None => None,
                    Some((index, p2)) => match dec_tx_record_at(b, p2) {
                        None => None,
                        Some((transaction, p3)) => if p3 == b.len() && index <= usize::MAX {
                            Some(
                                PluginEventV::Transaction(
                                    crate::records::TransactionEventV {
                                        slot,
                                        index: index as usize,
                                        transaction,
                                    },
                                ),
                            )
                        } else {
                            None
                        },
                    },
                },
            }
        } else if kind == 2 {
            match dec_u64_at(b, p0) {
                None => None,
                Some((parent_slot, p1)) => match dec_str_at(b, p1) {
                    None => None,
                    Some((parent_blockhash, p2)) => match dec_u64_at(b, p2) {
                        None => None,
                        Some((slot, p3)) => match dec_str_at(b, p3) {
                            None => None,
                            Some((blockhash, p4)) => match dec_u64_at(b, p4) {
                                None => None,
                                Some((n, p5)) => match dec_rewards_at(b, p5, n as int) {
                                    None => None,
                                    Some((rewards, p6)) => match dec_opt_i64_at(b, p6) {
                                        None => None,
                                        Some((block_time, p7)) => match dec_opt_u64_at(b, p7) {
                                            None => None,
                                            Some((block_height, p8)) => match dec_u64_at(b, p8) {
                                                None => None,
                                                Some((tx_count, p9)) => match dec_u64_at(b, p9) {
                                                    None => None,
                                                    Some((entry_count, p10)) => if p10 == b.len() {
                                                        Some(
                                                            PluginEventV::BlockInfo(
                                                                BlockInfoEventV {
                                                                    parent_slot,
                                                                    parent_blockhash,
                                                                    slot,
                                                                    blockhash,
                                                                    rewards,
                                                                    block_time,
                                                                    block_height,
                                                                    executed_transaction_count:
                                                                        tx_count,
                                                                    entry_count,
                                                                },
                                                            ),
                                                        )
                                                    } else {
                                                        None
                                                    },
                                                },
                                            },
                                        },
                                    },
                                },
                            },
                        },
                    },
                },
            }
        } else if kind == 3 {
            match dec_u64_at(b, p0) {
                None => None,
                Some((slot, p1)) => match dec_u64_at(b, p1) {
                    None => None,
                    Some((index, p2)) => match dec_u64_at(b, p2) {
                        None => None,
                        Some((num_hashes, p3)) => match dec_bytes_at(b, p3) {
                            None => None,
                            Some((hash, p4)) => match dec_u64_at(b, p4) {
                                None => None,
                                Some((count, p5)) => match dec_u64_at(b, p5) {
                                    None => None,
                                    Some((start, p6)) => if p6 == b.len() && index <= usize::MAX {
                                        Some(
                                            PluginEventV::Entry(
                                                crate::records::EntryEventV {
                                                    slot,
                                                    index: index as usize,
                                                    num_hashes,
                                                    hash,
                                                    executed_transaction_count: count,
                                                    starting_transaction_index: start,
                                                },
                                            ),
                                        )
                                    } else {
                                        None
                                    },
                                },
                            },
                        },
                    },
                },
            }
        } else {
            None
        },
    }
}

/// Appends the wire form of one touched address.
fn put_address(out: &mut Vec<u8>, a: &TouchedAddress)
    ensures
        final(out)@ == old(out)@ + enc_address(a@),
{
    put_str(out, &a.key);
    out.push(if a.reserved {
        1u8
    } else {
        0u8
    });
    assert(out@ =~= old(out)@ + enc_address(a@));
}

/// Appends the wire form of a transaction record.
fn put_tx_record(out: &mut Vec<u8>, t: &TransactionRecord)
    ensures
        final(out)@ == old(out)@ + enc_tx_record(t@),
{
    put_str(out, &t.signature);
    put_opt_str(out, &t.err);
    put_u64_le(out, t.addresses.len() as u64);
    let ghost addr_views = t@.addresses;
    let ghost base = out@;
    proof {
        assert(addr_views.take(0) =~= Seq::<TouchedAddressV>::empty());
        assert(out@ =~= base + enc_address_items(addr_views.take(0)));
    }
    let mut i: usize = 0;
    while i < t.addresses.len()
        invariant
            i <= t.addresses@.len(),
            addr_views == t@.addresses,
            addr_views.len() == t.addresses@.len(),
            out@ == base + enc_address_items(addr_views.take(i as int)),
        decreases t.addresses@.len() - i,
    {
        put_address(out, &t.addresses[i]);
        proof {
            assert(addr_views.take(i + 1) =~= addr_views.take(i as int).push(
                addr_views[i as int],
            ));
            lemma_enc_address_items_snoc(addr_views.take(i as int), addr_views[i as int]);
            assert(addr_views[i as int] == t.addresses@[i as int]@);
            assert(out@ =~= base + enc_address_items(addr_views.take(i + 1)));
        }
        i = i + 1;
    }
    proof {
        assert(addr_views.take(addr_views.len() as int) =~= addr_views);
    }
    put_opt_str(out, &t.memo);
    assert(out@ =~= old(out)@ + enc_tx_record(t@));
}

/// A touched address the wire can carry.
pub open spec fn address_ok(a: TouchedAddressV) -> bool {
    str_ok(a.key)
}

/// A transaction record the wire can carry.
pub open spec fn tx_record_ok(t: TransactionRecordV) -> bool {
    &&& str_ok(t.signature)
    &&& opt_str_ok(t.err)
    &&& t.addresses.len() <= u64::MAX
    &&& forall|i: int| 0 <= i < t.addresses.len() ==> address_ok(#[trigger] t.addresses[i])
    &&& opt_str_ok(t.memo)
}

/// An event the wire can carry: every string fits its length prefix. Every
/// value built from real strings and vectors satisfies this.
pub open spec fn event_ok(e: PluginEventV) -> bool {
    match e {
        PluginEventV::Status { .. } => true,
        PluginEventV::Transaction(t) => tx_record_ok(t.transaction),
        PluginEventV::BlockInfo(b) => {
            &&& str_ok(b.parent_blockhash)
            &&& str_ok(b.blockhash)
            &&& b.rewards.len() <= u64::MAX
            &&& forall|i: int| 0 <= i < b.rewards.len() ==> str_ok((#[trigger] b.rewards[i]).pubkey)
        },
        PluginEventV::Entry(en) => en.hash.len() <= u64::MAX,
    }
}

/// Reading a touched address where its encoding stands yields it back.
proof fn lemma_dec_address_after(prefix: Seq<u8>, a: TouchedAddressV, b: Seq<u8>)
    requires
        address_ok(a),
        b.subrange(prefix.len() as int, (prefix.len() + enc_address(a).len()) as int)
            == enc_address(a),
        prefix.len() + enc_address(a).len() <= b.len(),
    ensures
        dec_address_at(b, prefix.len() as int) == Some(
            (a, (prefix.len() + enc_address(a).len()) as int),
        ),
{
    let p0 = prefix.len() as int;
    let whole = enc_address(a);
    let klen = enc_str(a.key).len() as int;
    assert(whole.subrange(0, klen) =~= enc_str(a.key));
    lemma_piece_at(b, p0, whole, 0, enc_str(a.key));
    lemma_dec_str_after(prefix, a.key, b);
    let flag = if a.reserved {
        1u8
    } else {
        0u8
    };
    assert(whole.subrange(klen, klen + 1) =~= seq![flag]);
    lemma_piece_at(b, p0, whole, klen, seq![flag]);
    lemma_dec_u8_after(b.subrange(0, p0 + klen), flag, b);
}

/// Reading an address list where its encoding stands yields it back.
proof fn lemma_dec_addresses_after(prefix: Seq<u8>, addrs: Seq<TouchedAddressV>, b: Seq<u8>)
    requires
        forall|i: int| 0 <= i < addrs.len() ==> address_ok(#[trigger] addrs[i]),
        b.subrange(prefix.len() as int, (prefix.len() + enc_address_items(addrs).len()) as int)
            == enc_address_items(addrs),
        prefix.len() + enc_address_items(addrs).len() <= b.len(),
    ensures
        dec_addresses_at(b, prefix.len() as int, addrs.len() as int) == Some(
            (addrs, (prefix.len() + enc_address_items(addrs).len()) as int),
        ),
    decreases addrs.len(),
{
    let p0 = prefix.len() as int;
    let whole = enc_address_items(addrs);
    if addrs.len() == 0 {
        assert(dec_addresses_at(b, p0, 0) == Some((Seq::<TouchedAddressV>::empty(), p0)));
        assert(addrs =~= Seq::<TouchedAddressV>::empty());
    } else {
        let a0 = addrs[0];
        let alen = enc_address(a0).len() as int;
        assert(whole.subrange(0, alen) =~= enc_address(a0));
        lemma_piece_at(b, p0, whole, 0, enc_address(a0));
        lemma_dec_address_after(prefix, a0, b);
        let rest = addrs.drop_first();
        assert(forall|i: int| 0 <= i < rest.len() ==> rest[i] == addrs[i + 1]);
        let rlen = enc_address_items(rest).len() as int;
        assert(whole.subrange(alen, alen + rlen) =~= enc_address_items(rest));
        lemma_piece_at(b, p0, whole, alen, enc_address_items(rest));
        lemma_dec_addresses_after(b.subrange(0, p0 + alen), rest, b);
        assert(seq![a0] + rest =~= addrs);
    }
}

/// Reading a transaction record where its encoding stands yields it back.
#[verifier::spinoff_prover]
#[verifier::rlimit(100)]
proof fn lemma_dec_tx_record_after(prefix: Seq<u8>, t: TransactionRecordV, b: Seq<u8>)
    requires
        tx_record_ok(t),
        b.subrange(prefix.len() as int, (prefix.len() + enc_tx_record(t).len()) as int)
            == enc_tx_record(t),
        prefix.len() + enc_tx_record(t).len() <= b.len(),
    ensures
        dec_tx_record_at(b, prefix.len() as int) == Some(
            (t, (prefix.len() + enc_tx_record(t).len()) as int),
        ),
{
    let p0 = prefix.len() as int;
    let whole = enc_tx_record(t);
    let o1 = enc_str(t.signature).len() as int;
    let o2 = o1 + enc_opt_str(t.err).len();
    let o3 = o2 + 8;
    let o4 = o3 + enc_address_items(t.addresses).len();
    assert(whole.subrange(0, o1) =~= enc_str(t.signature));
    lemma_piece_at(b, p0, whole, 0, enc_str(t.signature));
    lemma_dec_str_after(prefix, t.signature, b);
    assert(whole.subrange(o1, o2) =~= enc_opt_str(t.err));
    lemma_piece_at(b, p0, whole, o1, enc_opt_str(t.err));
    lemma_dec_opt_str_after(b.subrange(0, p0 + o1), t.err, b);
    assert(whole.subrange(o2, o3) =~= enc_u64_le(t.addresses.len() as u64));
    lemma_piece_at(b, p0, whole, o2, enc_u64_le(t.addresses.len() as u64));
    lemma_dec_u64_after(b.subrange(0, p0 + o2), t.addresses.len() as u64, b);
    assert(whole.subrange(o3, o4) =~= enc_address_items(t.addresses));
    lemma_piece_at(b, p0, whole, o3, enc_address_items(t.addresses));
    lemma_dec_addresses_after(b.subrange(0, p0 + o3), t.addresses, b);
    assert(whole.subrange(o4, o4 + enc_opt_str(t.memo).len()) =~= enc_opt_str(t.memo));
    lemma_piece_at(b, p0, whole, o4, enc_opt_str(t.memo));
    lemma_dec_opt_str_after(b.subrange(0, p0 + o4), t.memo, b);
    assert(dec_tx_record_at(b, p0) == Some((
        TransactionRecordV {
            signature: t.signature,
            err: t.err,
            addresses: t.addresses,
            memo: t.memo,
        },
        p0 + whole.len(),
    )));
    assert(TransactionRecordV {
        signature: t.signature,
        err: t.err,
        addresses: t.addresses,
        memo: t.memo,
    } =~= t);
}

/// Reading a reward where its encoding stands yields it back.
proof fn lemma_dec_reward_after(prefix: Seq<u8>, r: RewardV, b: Seq<u8>)
    requires
        str_ok(r.pubkey),
        b.subrange(prefix.len() as int, (prefix.len() + enc_reward(r).len()) as int)
            == enc_reward(r),
        prefix.len() + enc_reward(r).len() <= b.len(),
    ensures
        dec_reward_at(b, prefix.len() as int) == Some(
            (r, (prefix.len() + enc_reward(r).len()) as int),
        ),
{
    let p0 = prefix.len() as int;
    let whole = enc_reward(r);
    let o1 = enc_str(r.pubkey).len() as int;
    let o2 = o1 + 8;
    let o3 = o2 + 8;
    assert(whole.subrange(0, o1) =~= enc_str(r.pubkey));
    lemma_piece_at(b, p0, whole, 0, enc_str(r.pubkey));
    lemma_dec_str_after(prefix, r.pubkey, b);
    assert(whole.subrange(o1, o2) =~= enc_u64_le(r.lamports as u64));
    lemma_piece_at(b, p0, whole, o1, enc_u64_le(r.lamports as u64));
    lemma_dec_u64_after(b.subrange(0, p0 + o1), r.lamports as u64, b);
    assert(whole.subrange(o2, o3) =~= enc_u64_le(r.post_balance));
    lemma_piece_at(b, p0, whole, o2, enc_u64_le(r.post_balance));
    lemma_dec_u64_after(b.subrange(0, p0 + o2), r.post_balance, b);
    assert(whole.subrange(o3, o3 + enc_opt_u8(r.commission_percent).len()) =~= enc_opt_u8(
        r.commission_percent,
    ));
    lemma_piece_at(b, p0, whole, o3, enc_opt_u8(r.commission_percent));
    lemma_dec_opt_u8_after(b.subrange(0, p0 + o3), r.commission_percent, b);
    let lam = r.lamports;
    assert(((lam as u64) as i64) == lam) by (bit_vector);
    assert(RewardV {
        pubkey: r.pubkey,
        lamports: (r.lamports as u64) as i64,
        post_balance: r.post_balance,
        commission_percent: r.commission_percent,
    } =~= r);
}

/// Reading a reward list where its encoding stands yields it back.
proof fn lemma_dec_rewards_after(prefix: Seq<u8>, rewards: Seq<RewardV>, b: Seq<u8>)
    requires
        forall|i: int| 0 <= i < rewards.len() ==> str_ok((#[trigger] rewards[i]).pubkey),
        b.subrange(prefix.len() as int, (prefix.len() + enc_reward_list(rewards).len()) as int)
            == enc_reward_list(rewards),
        prefix.len() + enc_reward_list(rewards).len() <= b.len(),
    ensures
        dec_rewards_at(b, prefix.len() as int, rewards.len() as int) == Some(
            (rewards, (prefix.len() + enc_reward_list(rewards).len()) as int),
        ),
    decreases rewards.len(),
{
    let p0 = prefix.len() as int;
    let whole = enc_reward_list(rewards);
    if rewards.len() == 0 {
        assert(rewards =~= Seq::<RewardV>::empty());
    } else {
        let r0 = rewards[0];
        let rlen = enc_reward(r0).len() as int;
        assert(whole.subrange(0, rlen) =~= enc_reward(r0));
        lemma_piece_at(b, p0, whole, 0, enc_reward(r0));
        lemma_dec_reward_after(prefix, r0, b);
        let rest = rewards.drop_first();
        assert(forall|i: int| 0 <= i < rest.len() ==> rest[i] == rewards[i + 1]);
        let restlen = enc_reward_list(rest).len() as int;
        assert(whole.subrange(rlen, rlen + restlen) =~= enc_reward_list(rest));
        lemma_piece_at(b, p0, whole, rlen, enc_reward_list(rest));
        lemma_dec_rewards_after(b.subrange(0, p0 + rlen), rest, b);
        assert(seq![r0] + rest =~= rewards);
    }
}

/// Decoding inverts encoding for a status event.
#[verifier::spinoff_prover]
#[verifier::rlimit(60)]
proof fn lemma_round_trip_status(e: PluginEventV)
    requires
        e is Status,
    ensures
        spec_dec_event(spec_enc_event(e)) == Some(e),
{
    let b = spec_enc_event(e);
    let empty = Seq::<u8>::empty();
    assert(b.subrange(0, b.len() as int) =~= b);
    match e {
        PluginEventV::Status { slot, status } => {
            let tag = spec_status_tag(status);
            assert(b.subrange(0, 1) =~= seq![0u8]);
            lemma_dec_u8_after(empty, 0u8, b);
            assert(b.subrange(1, 9) =~= enc_u64_le(slot));
            lemma_dec_u64_after(b.subrange(0, 1), slot, b);
            assert(b.subrange(9, 10) =~= seq![tag]);
            lemma_dec_u8_after(b.subrange(0, 9), tag, b);
        },
        _ => {},
    }
}

/// Decoding inverts encoding for a transaction event.
#[verifier::spinoff_prover]
#[verifier::rlimit(60)]
proof fn lemma_round_trip_transaction(e: PluginEventV)
    requires
        e is Transaction,
        event_ok(e),
    ensures
        spec_dec_event(spec_enc_event(e)) == Some(e),
{
    let b = spec_enc_event(e);
    let empty = Seq::<u8>::empty();
    assert(b.subrange(0, b.len() as int) =~= b);
    match e {
        PluginEventV::Transaction(t) => {
            assert(b.subrange(0, 1) =~= seq![1u8]);
            lemma_dec_u8_after(empty, 1u8, b);
            assert(b.subrange(1, 9) =~= enc_u64_le(t.slot));
            lemma_dec_u64_after(b.subrange(0, 1), t.slot, b);
            assert(b.subrange(9, 17) =~= enc_u64_le(t.index as u64));
            lemma_dec_u64_after(b.subrange(0, 9), t.index as u64, b);
            assert(b.subrange(17, (17 + enc_tx_record(t.transaction).len()) as int)
                =~= enc_tx_record(t.transaction));
            lemma_dec_tx_record_after(b.subrange(0, 17), t.transaction, b);
            assert(crate::records::TransactionEventV {
                slot: t.slot,
                index: ((t.index as u64) as usize),
                transaction: t.transaction,
            } =~= t);
        },
        _ => {},
    }
}

/// The flat wire form of a block-metadata record.
pub open spec fn enc_block_info_body(bi: BlockInfoEventV) -> Seq<u8> {
    seq![2u8] + enc_u64_le(bi.parent_slot) + enc_str(bi.parent_blockhash) + enc_u64_le(bi.slot)
        + enc_str(bi.blockhash) + enc_u64_le(bi.rewards.len() as u64) + enc_reward_list(bi.rewards)
        + enc_opt_i64(bi.block_time) + enc_opt_u64(bi.block_height) + enc_u64_le(
        bi.executed_transaction_count,
    ) + enc_u64_le(bi.entry_count)
}

/// The early fields of an encoded block-metadata record read back from
/// their offsets.
#[verifier::spinoff_prover]
#[verifier::rlimit(100)]
proof fn lemma_block_info_fields_early(bi: BlockInfoEventV, b: Seq<u8>)
    requires
        str_ok(bi.parent_blockhash),
        str_ok(bi.blockhash),
        bi.rewards.len() <= u64::MAX,
        b == enc_block_info_body(bi),
    ensures
        ({
            let o1 = 1int;
            let o2 = o1 + 8;
            let o3 = o2 + enc_str(bi.parent_blockhash).len();
            let o4 = o3 + 8;
            let o5 = o4 + enc_str(bi.blockhash).len();
            let o6 = o5 + 8;
            &&& dec_u8_at(b, 0) == Some((2u8, o1))
            &&& dec_u64_at(b, o1) == Some((bi.parent_slot, o2))
            &&& dec_str_at(b, o2) == Some((bi.parent_blockhash, o3))
            &&& dec_u64_at(b, o3) == Some((bi.slot, o4))
            &&& dec_str_at(b, o4) == Some((bi.blockhash, o5))
            &&& dec_u64_at(b, o5) == Some((bi.rewards.len() as u64, o6))
        }),
{
    let empty = Seq::<u8>::empty();
    assert(b.subrange(0, b.len() as int) =~= b);
    let c1 = seq![2u8];
    let c2 = c1 + enc_u64_le(bi.parent_slot);
    let c3 = c2 + enc_str(bi.parent_blockhash);
    let c4 = c3 + enc_u64_le(bi.slot);
    let c5 = c4 + enc_str(bi.blockhash);
    let c6 = c5 + enc_u64_le(bi.rewards.len() as u64);
    let rest = enc_reward_list(bi.rewards) + enc_opt_i64(bi.block_time) + enc_opt_u64(
        bi.block_height,
    ) + enc_u64_le(bi.executed_transaction_count) + enc_u64_le(bi.entry_count);
    assert(b =~= c6 + rest);
    lemma_concat_pieces(c6, rest);
    lemma_piece_at(b, 0, c6 + rest, 0, c6);
    lemma_concat_pieces(c5, enc_u64_le(bi.rewards.len() as u64));
    lemma_piece_at(b, 0, c6, c5.len() as int, enc_u64_le(bi.rewards.len() as u64));
    lemma_piece_at(b, 0, c6, 0, c5);
    lemma_concat_pieces(c4, enc_str(bi.blockhash));
    lemma_piece_at(b, 0, c5, c4.len() as int, enc_str(bi.blockhash));
    lemma_piece_at(b, 0, c5, 0, c4);
    lemma_concat_pieces(c3, enc_u64_le(bi.slot));
    lemma_piece_at(b, 0, c4, c3.len() as int, enc_u64_le(bi.slot));
    lemma_piece_at(b, 0, c4, 0, c3);
    lemma_concat_pieces(c2, enc_str(bi.parent_blockhash));
    lemma_piece_at(b, 0, c3, c2.len() as int, enc_str(bi.parent_blockhash));
    lemma_piece_at(b, 0, c3, 0, c2);
    lemma_concat_pieces(c1, enc_u64_le(bi.parent_slot));
    lemma_piece_at(b, 0, c2, c1.len() as int, enc_u64_le(bi.parent_slot));
    lemma_piece_at(b, 0, c2, 0, c1);
    lemma_dec_u8_after(empty, 2u8, b);
    lemma_dec_u64_after(b.subrange(0, c1.len() as int), bi.parent_slot, b);
    lemma_dec_str_after(b.subrange(0, c2.len() as int), bi.parent_blockhash, b);
    lemma_dec_u64_after(b.subrange(0, c3.len() as int), bi.slot, b);
    lemma_dec_str_after(b.subrange(0, c4.len() as int), bi.blockhash, b);
    lemma_dec_u64_after(b.subrange(0, c5.len() as int), bi.rewards.len() as u64, b);
}

/// Where each tail piece of an encoded block-metadata record stands.
#[verifier::spinoff_prover]
#[verifier::rlimit(100)]
proof fn lemma_block_info_tail_pieces(bi: BlockInfoEventV, b: Seq<u8>)
    requires
        b == enc_block_info_body(bi),
    ensures
        ({
            let o6 = 25 + enc_str(bi.parent_blockhash).len() + enc_str(bi.blockhash).len();
            let o7 = o6 + enc_reward_list(bi.rewards).len();
            let o8 = o7 + enc_opt_i64(bi.block_time).len();
            let o9 = o8 + enc_opt_u64(bi.block_height).len();
            let o10 = o9 + 8;
            &&& b.subrange(o6 as int, o7 as int) == enc_reward_list(bi.rewards)
            &&& b.subrange(o7 as int, o8 as int) == enc_opt_i64(bi.block_time)
            &&& b.subrange(o8 as int, o9 as int) == enc_opt_u64(bi.block_height)
            &&& b.subrange(o9 as int, o10 as int) == enc_u64_le(bi.executed_transaction_count)
            &&& b.subrange(o10 as int, (o10 + 8) as int) == enc_u64_le(bi.entry_count)
            &&& o10 + 8 == b.len()
        }),
{
    assert(b.subrange(0, b.len() as int) =~= b);
    let c1 = seq![2u8];
    let c2 = c1 + enc_u64_le(bi.parent_slot);
    let c3 = c2 + enc_str(bi.parent_blockhash);
    let c4 = c3 + enc_u64_le(bi.slot);
    let c5 = c4 + enc_str(bi.blockhash);
    let c6 = c5 + enc_u64_le(bi.rewards.len() as u64);
    let c7 = c6 + enc_reward_list(bi.rewards);
    let c8 = c7 + enc_opt_i64(bi.block_time);
    let c9 = c8 + enc_opt_u64(bi.block_height);
    let c10 = c9 + enc_u64_le(bi.executed_transaction_count);
    let c11 = c10 + enc_u64_le(bi.entry_count);
    assert(b == c11);
    lemma_concat_pieces(c10, enc_u64_le(bi.entry_count));
    lemma_piece_at(b, 0, c11, c10.len() as int, enc_u64_le(bi.entry_count));
    lemma_piece_at(b, 0, c11, 0, c10);
    lemma_concat_pieces(c9, enc_u64_le(bi.executed_transaction_count));
    lemma_piece_at(b, 0, c10, c9.len() as int, enc_u64_le(bi.executed_transaction_count));
    lemma_piece_at(b, 0, c10, 0, c9);
    lemma_concat_pieces(c8, enc_opt_u64(bi.block_height));
    lemma_piece_at(b, 0, c9, c8.len() as int, enc_opt_u64(bi.block_height));
    lemma_piece_at(b, 0, c9, 0, c8);
    lemma_concat_pieces(c7, enc_opt_i64(bi.block_time));
    lemma_piece_at(b, 0, c8, c7.len() as int, enc_opt_i64(bi.block_time));
    lemma_piece_at(b, 0, c8, 0, c7);
    lemma_concat_pieces(c6, enc_reward_list(bi.rewards));
    lemma_piece_at(b, 0, c7, c6.len() as int, enc_reward_list(bi.rewards));
}

/// Reading the located tail pieces yields the fields back.
#[verifier::spinoff_prover]
#[verifier::rlimit(100)]
proof fn lemma_block_info_tail_fields(bi: BlockInfoEventV, b: Seq<u8>, o6: int)
    requires
        bi.rewards.len() <= u64::MAX,
        forall|i: int| 0 <= i < bi.rewards.len() ==> str_ok((#[trigger] bi.rewards[i]).pubkey),
        0 <= o6,
        o6 + enc_reward_list(bi.rewards).len() + enc_opt_i64(bi.block_time).len() + enc_opt_u64(
            bi.block_height,
        ).len() + 16 <= b.len(),
        b.subrange(o6, o6 + enc_reward_list(bi.rewards).len()) == enc_reward_list(bi.rewards),
        b.subrange(
            o6 + enc_reward_list(bi.rewards).len(),
            o6 + enc_reward_list(bi.rewards).len() + enc_opt_i64(bi.block_time).len(),
        ) == enc_opt_i64(bi.block_time),
        b.subrange(
            o6 + enc_reward_list(bi.rewards).len() + enc_opt_i64(bi.block_time).len(),
            o6 + enc_reward_list(bi.rewards).len() + enc_opt_i64(bi.block_time).len()
                + enc_opt_u64(bi.block_height).len(),
        ) == enc_opt_u64(bi.block_height),
        b.subrange(
            o6 + enc_reward_list(bi.rewards).len() + enc_opt_i64(bi.block_time).len()
                + enc_opt_u64(bi.block_height).len(),
            o6 + enc_reward_list(bi.rewards).len() + enc_opt_i64(bi.block_time).len()
                + enc_opt_u64(bi.block_height).len() + 8,
        ) == enc_u64_le(bi.executed_transaction_count),
        b.subrange(
            o6 + enc_reward_list(bi.rewards).len() + enc_opt_i64(bi.block_time).len()
                + enc_opt_u64(bi.block_height).len() + 8,
            o6 + enc_reward_list(bi.rewards).len() + enc_opt_i64(bi.block_time).len()
                + enc_opt_u64(bi.block_height).len() + 16,
        ) == enc_u64_le(bi.entry_count),
    ensures
        ({
            let o7 = o6 + enc_reward_list(bi.rewards).len();
            let o8 = o7 + enc_opt_i64(bi.block_time).len();
            let o9 = o8 + enc_opt_u64(bi.block_height).len();
            let o10 = o9 + 8;
            &&& dec_rewards_at(b, o6, bi.rewards.len() as int) == Some((bi.rewards, o7))
            &&& dec_opt_i64_at(b, o7) == Some((bi.block_time, o8))
            &&& dec_opt_u64_at(b, o8) == Some((bi.block_height, o9))
            &&& dec_u64_at(b, o9) == Some((bi.executed_transaction_count, o10))
            &&& dec_u64_at(b, o10) == Some((bi.entry_count, o10 + 8))
        }),
{
    let o7 = o6 + enc_reward_list(bi.rewards).len();
    let o8 = o7 + enc_opt_i64(bi.block_time).len();
    let o9 = o8 + enc_opt_u64(bi.block_height).len();
    lemma_dec_rewards_after(b.subrange(0, o6), bi.rewards, b);
    lemma_dec_opt_i64_after(b.subrange(0, o7 as int), bi.block_time, b);
    lemma_dec_opt_u64_after(b.subrange(0, o8 as int), bi.block_height, b);
    lemma_dec_u64_after(b.subrange(0, o9 as int), bi.executed_transaction_count, b);
    lemma_dec_u64_after(b.subrange(0, (o9 + 8) as int), bi.entry_count, b);
}

/// Evaluating the decoder once every block-metadata field is known to read
/// back.
#[verifier::spinoff_prover]
#[verifier::rlimit(100)]
proof fn lemma_block_info_eval(bi: BlockInfoEventV, b: Seq<u8>, o2: int, o3: int, o4: int, o5: int, o6: int, o7: int, o8: int, o9: int, o10: int)
    requires
        bi.rewards.len() <= u64::MAX,
        dec_u8_at(b, 0) == Some((2u8, 1int)),
        dec_u64_at(b, 1) == Some((bi.parent_slot, o2)),
        dec_str_at(b, o2) == Some((bi.parent_blockhash, o3)),
        dec_u64_at(b, o3) == Some((bi.slot, o4)),
        dec_str_at(b, o4) == Some((bi.blockhash, o5)),
        dec_u64_at(b, o5) == Some((bi.rewards.len() as u64, o6)),
        dec_rewards_at(b, o6, bi.rewards.len() as int) == Some((bi.rewards, o7)),
        dec_opt_i64_at(b, o7) == Some((bi.block_time, o8)),
        dec_opt_u64_at(b, o8) == Some((bi.block_height, o9)),
        dec_u64_at(b, o9) == Some((bi.executed_transaction_count, o10)),
        dec_u64_at(b, o10) == Some((bi.entry_count, o10 + 8)),
        o10 + 8 == b.len(),
    ensures
        spec_dec_event(b) == Some(PluginEventV::BlockInfo(bi)),
{
    assert(BlockInfoEventV {
        parent_slot: bi.parent_slot,
        parent_blockhash: bi.parent_blockhash,
        slot: bi.slot,
        blockhash: bi.blockhash,
        rewards: bi.rewards,
        block_time: bi.block_time,
        block_height: bi.block_height,
        executed_transaction_count: bi.executed_transaction_count,
        entry_count: bi.entry_count,
    } =~= bi);
}

/// Decoding inverts encoding for a block-metadata event.
#[verifier::spinoff_prover]
#[verifier::rlimit(100)]
proof fn lemma_round_trip_block_info(e: PluginEventV)
    requires
        e is BlockInfo,
        event_ok(e),
    ensures
        spec_dec_event(spec_enc_event(e)) == Some(e),
{
    let b = spec_enc_event(e);
    match e {
        PluginEventV::BlockInfo(bi) => {
            assert(b == enc_block_info_body(bi));
            lemma_block_info_fields_early(bi, b);
            lemma_block_info_tail_pieces(bi, b);
            lemma_block_info_tail_fields(
                bi,
                b,
                (25 + enc_str(bi.parent_blockhash).len() + enc_str(bi.blockhash).len()) as int,
            );
            let o2 = 9int;
            let o3 = o2 + enc_str(bi.parent_blockhash).len();
            let o4 = o3 + 8;
            let o5 = o4 + enc_str(bi.blockhash).len();
            let o6 = o5 + 8;
            let o7 = o6 + enc_reward_list(bi.rewards).len();
            let o8 = o7 + enc_opt_i64(bi.block_time).len();
            let o9 = o8 + enc_opt_u64(bi.block_height).len();
            let o10 = o9 + 8;
            assert(o10 + 8 == b.len());
            lemma_block_info_eval(bi, b, o2, o3, o4, o5, o6, o7, o8, o9, o10);
        },
        _ => {},
    }
}

/// Decoding inverts encoding for an entry event.
#[verifier::spinoff_prover]
#[verifier::rlimit(100)]
proof fn lemma_round_trip_entry(e: PluginEventV)
    requires
        e is Entry,
        event_ok(e),
    ensures
        spec_dec_event(spec_enc_event(e)) == Some(e),
{
    let b = spec_enc_event(e);
    let empty = Seq::<u8>::empty();
    assert(b.subrange(0, b.len() as int) =~= b);
    match e {
        PluginEventV::Entry(en) => {
            let c1 = seq![3u8];
            let c2 = c1 + enc_u64_le(en.slot);
            let c3 = c2 + enc_u64_le(en.index as u64);
            let c4 = c3 + enc_u64_le(en.num_hashes);
            let c5 = c4 + enc_u64_le(en.hash.len() as u64);
            let c6 = c5 + en.hash;
            let c7 = c6 + enc_u64_le(en.executed_transaction_count);
            let c8 = c7 + enc_u64_le(en.starting_transaction_index);
            assert(b == c8);
            lemma_concat_pieces(c7, enc_u64_le(en.starting_transaction_index));
            lemma_piece_at(b, 0, c8, c7.len() as int, enc_u64_le(en.starting_transaction_index));
            lemma_piece_at(b, 0, c8, 0, c7);
            lemma_concat_pieces(c6, enc_u64_le(en.executed_transaction_count));
            lemma_piece_at(b, 0, c7, c6.len() as int, enc_u64_le(en.executed_transaction_count));
            lemma_piece_at(b, 0, c7, 0, c6);
            lemma_concat_pieces(c4, enc_u64_le(en.hash.len() as u64) + en.hash);
            assert(c6 =~= c4 + (enc_u64_le(en.hash.len() as u64) + en.hash));
            lemma_piece_at(
                b,
                0,
                c4 + (enc_u64_le(en.hash.len() as u64) + en.hash),
                c4.len() as int,
                enc_u64_le(en.hash.len() as u64) + en.hash,
            );
            lemma_piece_at(b, 0, c6, 0, c4);
            lemma_concat_pieces(c3, enc_u64_le(en.num_hashes));
            lemma_piece_at(b, 0, c4, c3.len() as int, enc_u64_le(en.num_hashes));
            lemma_piece_at(b, 0, c4, 0, c3);
            lemma_concat_pieces(c2, enc_u64_le(en.index as u64));
            lemma_piece_at(b, 0, c3, c2.len() as int, enc_u64_le(en.index as u64));
            lemma_piece_at(b, 0, c3, 0, c2);
            lemma_concat_pieces(c1, enc_u64_le(en.slot));
            lemma_piece_at(b, 0, c2, c1.len() as int, enc_u64_le(en.slot));
            lemma_piece_at(b, 0, c2, 0, c1);
            lemma_dec_u8_after(empty, 3u8, b);
            lemma_dec_u64_after(b.subrange(0, 1), en.slot, b);
            lemma_dec_u64_after(b.subrange(0, 9), en.index as u64, b);
            lemma_dec_u64_after(b.subrange(0, 17), en.num_hashes, b);
            lemma_dec_bytes_after(b.subrange(0, 25), en.hash, b);
            lemma_dec_u64_after(b.subrange(0, (33 + en.hash.len()) as int), en.executed_transaction_count, b);
            lemma_dec_u64_after(b.subrange(0, (41 + en.hash.len()) as int), en.starting_transaction_index, b);
            assert(crate::records::EntryEventV {
                slot: en.slot,
                index: ((en.index as u64) as usize),
                num_hashes: en.num_hashes,
                hash: en.hash,
                executed_transaction_count: en.executed_transaction_count,
                starting_transaction_index: en.starting_transaction_index,
            } =~= en);
        },
        _ => {},
    }
}

/// Decoding inverts encoding: the wire form of any event reads back as
/// exactly that event.
pub proof fn lemma_dec_event_round_trip(e: PluginEventV)
    requires
        event_ok(e),
    ensures
        spec_dec_event(spec_enc_event(e)) == Some(e),
{
    match e {
        PluginEventV::Status { .. } => lemma_round_trip_status(e),
        PluginEventV::Transaction(_) => lemma_round_trip_transaction(e),
        PluginEventV::BlockInfo(_) => lemma_round_trip_block_info(e),
        PluginEventV::Entry(_) => lemma_round_trip_entry(e),
    }
}

/// Writes one event in its wire form.
pub fn encode_plugin_event(event: &PluginEvent) -> (r: Vec<u8>)
    ensures
        r@ == spec_enc_event(event@),
{
    let mut out: Vec<u8> = Vec::new();
    match event {
        PluginEvent::Status { slot, status } => {
            out.push(0u8);
            put_u64_le(&mut out, *slot);
            out.push(
                match status {
                    SlotStatus::Processed => 0u8,
                    SlotStatus::Rooted => 1u8,
                    SlotStatus::Confirmed => 2u8,
                },
            );
            assert(out@ =~= spec_enc_event(event@));
        },
        PluginEvent::Transaction(t) => {
            out.push(1u8);
            put_u64_le(&mut out, t.slot);
            put_u64_le(&mut out, t.index as u64);
            put_tx_record(&mut out, &t.transaction);
            assert(out@ =~= spec_enc_event(event@));
        },
        PluginEvent::BlockInfo(b) => {
            out.push(2u8);
            put_u64_le(&mut out, b.parent_slot);
            put_str(&mut out, &b.parent_blockhash);
            put_u64_le(&mut out, b.slot);
            put_str(&mut out, &b.blockhash);
            put_u64_le(&mut out, b.rewards.len() as u64);
            let ghost reward_views = b@.rewards;
            let ghost base = out@;
            proof {
                assert(reward_views.take(0) =~= Seq::<RewardV>::empty());
                assert(out@ =~= base + enc_reward_list(reward_views.take(0)));
            }
            let mut i: usize = 0;
            while i < b.rewards.len()
                invariant
                    i <= b.rewards@.len(),
                    reward_views == b@.rewards,
                    reward_views.len() == b.rewards@.len(),
                    out@ == base + enc_reward_list(reward_views.take(i as int)),
                decreases b.rewards@.len() - i,
            {
                let rw = &b.rewards[i];
                put_str(&mut out, &rw.pubkey);
                put_u64_le(&mut out, #[verifier::truncate] (rw.lamports as u64));
                put_u64_le(&mut out, rw.post_balance);
                put_opt_u8(&mut out, &rw.commission_percent);
                proof {
                    assert(reward_views.take(i + 1) =~= reward_views.take(i as int).push(
                        reward_views[i as int],
                    ));
                    lemma_enc_reward_list_snoc(reward_views.take(i as int), reward_views[i as int]);
                    assert(reward_views[i as int] == b.rewards@[i as int]@);
                    assert(out@ =~= base + enc_reward_list(reward_views.take(i + 1)));
                }
                i = i + 1;
            }
            proof {
                assert(reward_views.take(reward_views.len() as int) =~= reward_views);
            }
            put_opt_i64(&mut out, &b.block_time);
            put_opt_u64(&mut out, &b.block_height);
            put_u64_le(&mut out, b.executed_transaction_count);
            put_u64_le(&mut out, b.entry_count);
            assert(out@ =~= spec_enc_event(event@));
        },
        PluginEvent::Entry(en) => {
            out.push(3u8);
            put_u64_le(&mut out, en.slot);
            put_u64_le(&mut out, en.index as u64);
            put_u64_le(&mut out, en.num_hashes);
            put_u64_le(&mut out, en.hash.len() as u64);
            append_bytes(&mut out, &en.hash);
            put_u64_le(&mut out, en.executed_transaction_count);
            put_u64_le(&mut out, en.starting_transaction_index);
            assert(out@ =~= spec_enc_event(event@));
        },
    }
    out
}

/// Relies on String::from_utf8: it succeeds exactly on valid UTF-8 and
/// yields the characters that byte sequence encodes.
#[verifier::external_body]
fn string_from_utf8(bytes: Vec<u8>) -> (r: Option<String>)
    ensures
        r is Some <==> valid_utf8(bytes@),
        r matches Some(s) ==> s@ == decode_utf8(bytes@),
{
    String::from_utf8(bytes).ok()
}

/// Reads a 64-bit integer, as `dec_u64_at` describes.
fn read_u64_at(buf: &Vec<u8>, pos: usize) -> (r: Option<(u64, usize)>)
    ensures
        r is Some <==> dec_u64_at(buf@, pos as int) is Some,
        r matches Some((v, p)) ==> dec_u64_at(buf@, pos as int) == Some((v, p as int)),
{
    let l: usize = buf.len();
    if pos <= l && l - pos >= 8 {
        Some((crate::bytes::get_u64_le(buf, pos), pos + 8))
    } else {
        None
    }
}

/// Reads one byte, as `dec_u8_at` describes.
fn read_u8_at(buf: &Vec<u8>, pos: usize) -> (r: Option<(u8, usize)>)
    ensures
        r is Some <==> dec_u8_at(buf@, pos as int) is Some,
        r matches Some((v, p)) ==> dec_u8_at(buf@, pos as int) == Some((v, p as int)),
{
    let l: usize = buf.len();
    if pos < l {
        Some((buf[pos], pos + 1))
    } else {
        None
    }
}

/// Reads a length-prefixed byte run, as `dec_bytes_at` describes.
fn read_bytes_at(buf: &Vec<u8>, pos: usize) -> (r: Option<(Vec<u8>, usize)>)
    ensures
        r is Some <==> dec_bytes_at(buf@, pos as int) is Some,
        r matches Some((v, p)) ==> dec_bytes_at(buf@, pos as int) == Some((v@, p as int)),
{
    let (n64, p) = match read_u64_at(buf, pos) {
        None => {
            return None;
        },
        Some(x) => x,
    };
    let l: usize = buf.len();
    if n64 > (l - p) as u64 {
        return None;
    }
    let n: usize = n64 as usize;
    let mut out: Vec<u8> = Vec::new();
    let mut i: usize = p;
    while i < p + n
        invariant
            p <= i <= p + n,
            p + n <= l,
            l == buf@.len(),
            out@ == buf@.subrange(p as int, i as int),
        decreases p + n - i,
    {
        out.push(buf[i]);
        assert(out@ =~= buf@.subrange(p as int, i + 1));
        i = i + 1;
    }
    Some((out, p + n))
}

/// Reads a length-prefixed string, as `dec_str_at` describes.
fn read_str_at(buf: &Vec<u8>, pos: usize) -> (r: Option<(String, usize)>)
    ensures
        r is Some <==> dec_str_at(buf@, pos as int) is Some,
        r matches Some((v, p)) ==> dec_str_at(buf@, pos as int) == Some((v@, p as int)),
{
    let (bytes, p) = match read_bytes_at(buf, pos) {
        None => {
            return None;
        },
        Some(x) => x,
    };
    match string_from_utf8(bytes) {
        None => None,
        Some(s) => Some((s, p)),
    }
}

/// Reads an optional string, as `dec_opt_str_at` describes.
fn read_opt_str_at(buf: &Vec<u8>, pos: usize) -> (r: Option<(Option<String>, usize)>)
    ensures
        r is Some <==> dec_opt_str_at(buf@, pos as int) is Some,
        r matches Some((v, p)) ==> dec_opt_str_at(buf@, pos as int) == Some(
            (view_opt_string(v), p as int),
        ),
{
    let (tag, p) = match read_u8_at(buf, pos) {
        None => {
            return None;
        },
        Some(x) => x,
    };
    if tag == 0 {
        Some((None, p))
    } else if tag == 1 {
        match read_str_at(buf, p) {
            None => None,
            Some((s, p2)) => Some((Some(s), p2)),
        }
    } else {
        None
    }
}

/// Reads an optional 64-bit integer, as `dec_opt_u64_at` describes.
fn read_opt_u64_at(buf: &Vec<u8>, pos: usize) -> (r: Option<(Option<u64>, usize)>)
    ensures
        r is Some <==> dec_opt_u64_at(buf@, pos as int) is Some,
        r matches Some((v, p)) ==> dec_opt_u64_at(buf@, pos as int) == Some((v, p as int)),
{
    let (tag, p) = match read_u8_at(buf, pos) {
        None => {
            return None;
        },
        Some(x) => x,
    };
    if tag == 0 {
        Some((None, p))
    } else if tag == 1 {
        match read_u64_at(buf, p) {
            None => None,
            Some((v, p2)) => Some((Some(v), p2)),
        }
    } else {
        None
    }
}

/// Reads an optional signed 64-bit integer, as `dec_opt_i64_at` describes.
fn read_opt_i64_at(buf: &Vec<u8>, pos: usize) -> (r: Option<(Option<i64>, usize)>)
    ensures
        r is Some <==> dec_opt_i64_at(buf@, pos as int) is Some,
        r matches Some((v, p)) ==> dec_opt_i64_at(buf@, pos as int) == Some((v, p as int)),
{
    match read_opt_u64_at(buf, pos) {
        None => None,
        Some((v, p)) => Some((
            match v {
                None => None,
                Some(n) => Some(#[verifier::truncate] (n as i64)),
            },
            p,
        )),
    }
}

/// Reads an optional byte, as `dec_opt_u8_at` describes.
fn read_opt_u8_at(buf: &Vec<u8>, pos: usize) -> (r: Option<(Option<u8>, usize)>)
    ensures
        r is Some <==> dec_opt_u8_at(buf@, pos as int) is Some,
        r matches Some((v, p)) ==> dec_opt_u8_at(buf@, pos as int) == Some((v, p as int)),
{
    let (tag, p) = match read_u8_at(buf, pos) {
        None => {
            return None;
        },
        Some(x) => x,
    };
    if tag == 0 {
        Some((None, p))
    } else if tag == 1 {
        match read_u8_at(buf, p) {
            None => None,
            Some((v, p2)) => Some((Some(v), p2)),
        }
    } else {
        None
    }
}

/// Reads one touched address, as `dec_address_at` describes.
fn read_address_at(buf: &Vec<u8>, pos: usize) -> (r: Option<(TouchedAddress, usize)>)
    ensures
        r is Some <==> dec_address_at(buf@, pos as int) is Some,
        r matches Some((v, p)) ==> dec_address_at(buf@, pos as int) == Some((v@, p as int)),
{
    let (key, p) = match read_str_at(buf, pos) {
        None => {
            return None;
        },
        Some(x) => x,
    };
    let (flag, p2) = match read_u8_at(buf, p) {
        None => {
            return None;
        },
        Some(x) => x,
    };
    if flag == 0 {
        Some((TouchedAddress { key, reserved: false }, p2))
    } else if flag == 1 {
        Some((TouchedAddress { key, reserved: true }, p2))
    } else {
        None
    }
}

/// Reads `n` touched addresses, as `dec_addresses_at` describes.
fn read_addresses_at(buf: &Vec<u8>, pos: usize, n: u64) -> (r: Option<(Vec<TouchedAddress>, usize)>)
    ensures
        r is Some <==> dec_addresses_at(buf@, pos as int, n as int) is Some,
        r matches Some((v, p)) ==> dec_addresses_at(buf@, pos as int, n as int) == Some(
            (v@.map_values(|a: TouchedAddress| a@), p as int),
        ),
    decreases n,
{
    if n == 0 {
        let out: Vec<TouchedAddress> = Vec::new();
        proof {
            assert(out@.map_values(|a: TouchedAddress| a@) =~= Seq::<TouchedAddressV>::empty());
        }
        return Some((out, pos));
    }
    let (a, p) = match read_address_at(buf, pos) {
        None => {
            return None;
        },
        Some(x) => x,
    };
    let ghost av = a@;
    match read_addresses_at(buf, p, n - 1) {
        None => None,
        Some((mut rest, p2)) => {
            let ghost rest_views = rest@.map_values(|x: TouchedAddress| x@);
            rest.insert(0, a);
            proof {
                let now = rest@.map_values(|x: TouchedAddress| x@);
                assert forall|i: int| 0 <= i < now.len() implies #[trigger] now[i] == (seq![av]
                    + rest_views)[i] by {
                    if i > 0 {
                        assert(rest@[i] == rest@.subrange(1, rest@.len() as int)[i - 1]);
                    }
                }
                assert(now =~= seq![av] + rest_views);
            }
            Some((rest, p2))
        },
    }
}

/// Reads one transaction record, as `dec_tx_record_at` describes.
fn read_tx_record_at(buf: &Vec<u8>, pos: usize) -> (r: Option<(TransactionRecord, usize)>)
    ensures
        r is Some <==> dec_tx_record_at(buf@, pos as int) is Some,
        r matches Some((v, p)) ==> dec_tx_record_at(buf@, pos as int) == Some((v@, p as int)),
{
    let (signature, p1) = match read_str_at(buf, pos) {
        None => {
            return None;
        },
        Some(x) => x,
    };
    let (err, p2) = match read_opt_str_at(buf, p1) {
        None => {
            return None;
        },
        Some(x) => x,
    };
    let (n, p3) = match read_u64_at(buf, p2) {
        None => {
            return None;
        },
        Some(x) => x,
    };
    let (addresses, p4) = match read_addresses_at(buf, p3, n) {
        None => {
            return None;
        },
        Some(x) => x,
    };
    let (memo, p5) = match read_opt_str_at(buf, p4) {
        None => {
            return None;
        },
        Some(x) => x,
    };
    let rec = TransactionRecord { signature, err, addresses, memo };
    proof {
        assert(rec@ =~= (dec_tx_record_at(buf@, pos as int)->0).0);
    }
    Some((rec, p5))
}

/// Reads one reward, as `dec_reward_at` describes.
fn read_reward_at(buf: &Vec<u8>, pos: usize) -> (r: Option<(Reward, usize)>)
    ensures
        r is Some <==> dec_reward_at(buf@, pos as int) is Some,
        r matches Some((v, p)) ==> dec_reward_at(buf@, pos as int) == Some((v@, p as int)),
{
    let (pubkey, p1) = match read_str_at(buf, pos) {
        None => {
            return None;
        },
        Some(x) => x,
    };
    let (lamports, p2) = match read_u64_at(buf, p1) {
        None => {
            return None;
        },
        Some(x) => x,
    };
    let (post_balance, p3) = match read_u64_at(buf, p2) {
        None => {
            return None;
        },
        Some(x) => x,
    };
    let (commission_percent, p4) = match read_opt_u8_at(buf, p3) {
        None => {
            return None;
        },
        Some(x) => x,
    };
    let rw = Reward {
        pubkey,
        lamports: #[verifier::truncate] (lamports as i64),
        post_balance,
        commission_percent,
    };
    proof {
        assert(rw@ =~= (dec_reward_at(buf@, pos as int)->0).0);
    }
    Some((rw, p4))
}

/// Reads `n` rewards, as `dec_rewards_at` describes.
fn read_rewards_at(buf: &Vec<u8>, pos: usize, n: u64) -> (r: Option<(Vec<Reward>, usize)>)
    ensures
        r is Some <==> dec_rewards_at(buf@, pos as int, n as int) is Some,
        r matches Some((v, p)) ==> dec_rewards_at(buf@, pos as int, n as int) == Some(
            (v@.map_values(|x: Reward| x@), p as int),
        ),
    decreases n,
{
    if n == 0 {
        let out: Vec<Reward> = Vec::new();
        proof {
            assert(out@.map_values(|x: Reward| x@) =~= Seq::<RewardV>::empty());
        }
        return Some((out, pos));
    }
    let (rw, p) = match read_reward_at(buf, pos) {
        None => {
            return None;
        },
        Some(x) => x,
    };
    let ghost rv = rw@;
    match read_rewards_at(buf, p, n - 1) {
        None => None,
        Some((mut rest, p2)) => {
            let ghost rest_views = rest@.map_values(|x: Reward| x@);
            rest.insert(0, rw);
            proof {
                let now = rest@.map_values(|x: Reward| x@);
                assert forall|i: int| 0 <= i < now.len() implies #[trigger] now[i] == (seq![rv]
                    + rest_views)[i] by {
                    if i > 0 {
                        assert(rest@[i] == rest@.subrange(1, rest@.len() as int)[i - 1]);
                    }
                }
                assert(now =~= seq![rv] + rest_views);
            }
            Some((rest, p2))
        },
    }
}

/// Reads one event back from its wire form, exactly as `spec_dec_event`
/// describes: the event, provided every field reads back and nothing trails
/// it.
pub fn decode_plugin_event(data: &Vec<u8>) -> (r: Option<PluginEvent>)
    ensures
        r is Some <==> spec_dec_event(data@) is Some,
        r matches Some(ev) ==> spec_dec_event(data@) == Some(ev@),
{
    let l: usize = data.len();
    let (kind, p0) = match read_u8_at(data, 0) {
        None => {
            return None;
        },
        Some(x) => x,
    };
    if kind == 0 {
        let (slot, p1) = match read_u64_at(data, p0) {
            None => {
                return None;
            },
            Some(x) => x,
        };
        let (st, p2) = match read_u8_at(data, p1) {
            None => {
                return None;
            },
            Some(x) => x,
        };
        if p2 == l && st <= 2 {
            let status = if st == 0 {
                SlotStatus::Processed
            } else if st == 1 {
                SlotStatus::Rooted
            } else {
                SlotStatus::Confirmed
            };
            Some(PluginEvent::Status { slot, status })
        } else {
            None
        }
    } else if kind == 1 {
        let (slot, p1) = match read_u64_at(data, p0) {
            None => {
                return None;
            },
            Some(x) => x,
        };
        let (index, p2) = match read_u64_at(data, p1) {
            None => {
                return None;
            },
            Some(x) => x,
        };
        let (transaction, p3) = match read_tx_record_at(data, p2) {
            None => {
                return None;
            },
            Some(x) => x,
        };
        if p3 == l && index <= usize::MAX as u64 {
            let ev = PluginEvent::Transaction(
                TransactionEvent { slot, index: index as usize, transaction },
            );
            proof {
                assert(ev@ =~= spec_dec_event(data@)->0);
            }
            Some(ev)
        } else {
            None
        }
    } else if kind == 2 {
        let (parent_slot, p1) = match read_u64_at(data, p0) {
            None => {
                return None;
            },
            Some(x) => x,
        };
        let (parent_blockhash, p2) = match read_str_at(data, p1) {
            None => {
                return None;
            },
            Some(x) => x,
        };
        let (slot, p3) = match read_u64_at(data, p2) {
            None => {
                return None;
            },
            Some(x) => x,
        };
        let (blockhash, p4) = match read_str_at(data, p3) {
            None => {
                return None;
            },
            Some(x) => x,
        };
        let (n, p5) = match read_u64_at(data, p4) {
            None => {
                return None;
            },
            Some(x) => x,
        };
        let (rewards, p6) = match read_rewards_at(data, p5, n) {
            None => {
                return None;
            },
            Some(x) => x,
        };
        let (block_time, p7) = match read_opt_i64_at(data, p6) {
            None => {
                return None;
            },
            Some(x) => x,
        };
        let (block_height, p8) = match read_opt_u64_at(data, p7) {
            None => {
                return None;
            },
            Some(x) => x,
        };
        let (tx_count, p9) = match read_u64_at(data, p8) {
            None => {
                return None;
            },
            Some(x) => x,
        };
        let (entry_count, p10) = match read_u64_at(data, p9) {
            None => {
                return None;
            },
            Some(x) => x,
        };
        if p10 == l {
            let ev = PluginEvent::BlockInfo(
                BlockInfoEvent {
                    parent_slot,
                    parent_blockhash,
                    slot,
                    blockhash,
                    rewards,
                    block_time,
                    block_height,
                    executed_transaction_count: tx_count,
                    entry_count,
                },
            );
            proof {
                assert(ev@ =~= spec_dec_event(data@)->0);
            }
            Some(ev)
        } else {
            None
        }
    } else if kind == 3 {
        let (slot, p1) = match read_u64_at(data, p0) {
            None => {
                return None;
            },
            Some(x) => x,
        };
        let (index, p2) = match read_u64_at(data, p1) {
            None => {
                return None;
            },
            Some(x) => x,
        };
        let (num_hashes, p3) = match read_u64_at(data, p2) {
            None => {
                return None;
            },
            Some(x) => x,
        };
        let (hash, p4) = match read_bytes_at(data, p3) {
            None => {
                return None;
            },
            Some(x) => x,
        };
        let (count, p5) = match read_u64_at(data, p4) {
            None => {
                return None;
            },
            Some(x) => x,
        };
        let (start, p6) = match read_u64_at(data, p5) {
            None => {
                return None;
            },
            Some(x) => x,
        };
        if p6 == l && index <= usize::MAX as u64 {
            let ev = PluginEvent::Entry(
                EntryEvent {
                    slot,
                    index: index as usize,
                    num_hashes,
                    hash,
                    executed_transaction_count: count,
                    starting_transaction_index: start,
                },
            );
            proof {
                assert(ev@ =~= spec_dec_event(data@)->0);
            }
            Some(ev)
        } else {
            None
        }
    } else {
        None
    }
}

} // verus!
