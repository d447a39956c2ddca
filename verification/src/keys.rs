//! On-disk names: range and slot directories, row keys, log file names.
//!
//! A range directory covers `slot_range` consecutive slots and is named
//! after its first slot and its end. Numeric parts are fixed-width hex, so
//! lexical order is numeric order. The `tx_by_addr` row key uses the bitwise
//! complement of the slot, so ascending key order per address is
//! reverse-chronological slot order — a deliberate indexing trick.

use vstd::prelude::*;
use crate::strfmt::{spec_hex16, format_hex16, spec_dec, format_dec, is_dec_digit, dec_val,
    parse_dec_range};

verus! {

/// The first slot of the range containing `slot`.
pub open spec fn spec_range_start(slot: u64, slot_range: u64) -> u64
    recommends
        slot_range > 0,
{
    (slot - (slot % slot_range)) as u64
}

/// A range's first slot is the multiple of the range size at or below the
/// slot.
pub proof fn lemma_range_start_properties(slot: u64, slot_range: u64)
    requires
        slot_range > 0,
    ensures
        spec_range_start(slot, slot_range) % slot_range == 0,
        spec_range_start(slot, slot_range) <= slot,
        slot < spec_range_start(slot, slot_range) + slot_range,
{
    let r = slot_range as int;
    let s = slot as int;
    vstd::arithmetic::div_mod::lemma_fundamental_div_mod(s, r);
    vstd::arithmetic::div_mod::lemma_mod_multiples_basic(s / r, r);
    assert(r * (s / r) == (s / r) * r) by (nonlinear_arith);
    assert(spec_range_start(slot, slot_range) == r * (s / r));
}

/// Computes the first slot of the range containing `slot`.
pub fn range_start(slot: u64, slot_range: u64) -> (r: u64)
    requires
        slot_range > 0,
    ensures
        r == spec_range_start(slot, slot_range),
{
    proof {
        assert(slot % slot_range <= slot) by (nonlinear_arith)
            requires
                slot_range > 0,
                slot >= 0,
        ;
    }
    slot - (slot % slot_range)
}

/// The sixteen-digit hex key a slot takes in the `blocks` and `entries`
/// tables.
pub open spec fn spec_slot_key(slot: u64) -> Seq<char> {
    spec_hex16(slot)
}

/// Writes a slot in its fixed-width key form.
pub fn format_slot(slot: u64) -> (r: String)
    ensures
        r@ == spec_slot_key(slot),
{
    format_hex16(slot)
}

/// Writes the row key a slot takes in the `blocks` table.
pub fn slot_to_blocks_key(slot: u64) -> (r: String)
    ensures
        r@ == spec_slot_key(slot),
{
    format_slot(slot)
}

/// Writes the row key a slot takes in the `entries` table.
pub fn slot_to_entries_key(slot: u64) -> (r: String)
    ensures
        r@ == spec_slot_key(slot),
{
    format_slot(slot)
}

/// The slot part of a `tx_by_addr` row key: the complement of the slot, so
/// later slots sort first.
pub open spec fn spec_tx_by_addr_slot_key(slot: u64) -> Seq<char> {
    spec_hex16(!slot)
}

/// Writes the slot part of a `tx_by_addr` row key.
pub fn slot_to_tx_by_addr_key(slot: u64) -> (r: String)
    ensures
        r@ == spec_tx_by_addr_slot_key(slot),
{
    format_hex16(!slot)
}

/// The name of the directory for the range that contains `slot`.
pub open spec fn spec_range_dir_name(slot: u64, slot_range: u64) -> Seq<char>
    recommends
        slot_range > 0,
{
    "range_"@ + spec_hex16(spec_range_start(slot, slot_range)) + "_"@ + spec_hex16(
        (spec_range_start(slot, slot_range) + slot_range) as u64,
    )
}

/// Writes the directory name of the range containing `slot`:
/// `range_<start>_<end>` with both bounds fixed-width hex.
pub fn format_slot_range(slot: u64, slot_range: u64) -> (r: String)
    requires
        slot_range > 0,
        spec_range_start(slot, slot_range) + slot_range <= u64::MAX,
    ensures
        r@ == spec_range_dir_name(slot, slot_range),
{
    let start = range_start(slot, slot_range);
    let mut s = String::from_str("range_");
    s.append(format_hex16(start).as_str());
    s.append("_");
    s.append(format_hex16(start + slot_range).as_str());
    assert(s@ =~= spec_range_dir_name(slot, slot_range));
    s
}

/// The name of a slot's own directory within its range.
pub open spec fn spec_slot_dir_name(slot: u64) -> Seq<char> {
    "slot_"@ + spec_hex16(slot)
}

/// Writes a slot's directory name: `slot_<n>` fixed-width hex.
pub fn format_slot_single(slot: u64) -> (r: String)
    ensures
        r@ == spec_slot_dir_name(slot),
{
    let mut s = String::from_str("slot_");
    s.append(format_hex16(slot).as_str());
    assert(s@ =~= spec_slot_dir_name(slot));
    s
}

/// The name of the rotation file with the given index.
pub open spec fn spec_log_file_name(index: u64) -> Seq<char> {
    "log_"@ + spec_dec(index) + ".bin"@
}

/// Writes the name of the rotation file with the given index.
pub fn log_file_name(index: u64) -> (r: String)
    ensures
        r@ == spec_log_file_name(index),
{
    let mut s = String::from_str("log_");
    s.append(format_dec(index).as_str());
    s.append(".bin");
    assert(s@ =~= spec_log_file_name(index));
    s
}

/// Reads the index out of a rotation file's name.
///
/// Returns the index exactly when the name is `log_<digits>.bin` with a
/// value that fits in 64 bits; any other file in the log directory is
/// ignored.
pub fn parse_log_file_name(name: &str) -> (r: Option<u64>)
    ensures
        r is Some <==> {
            &&& name@.len() >= 9
            &&& name@.subrange(0, 4) == "log_"@
            &&& name@.subrange(name@.len() - 4, name@.len() as int) == ".bin"@
            &&& forall|j: int|
                4 <= j < name@.len() - 4 ==> is_dec_digit(#[trigger] name@[j])
            &&& dec_val(name@.subrange(4, name@.len() - 4)) <= u64::MAX
        },
        r matches Some(v) ==> v == dec_val(name@.subrange(4, name@.len() - 4)),
{
    proof {
        reveal_strlit("log_");
        reveal_strlit(".bin");
    }
    let l: usize = name.unicode_len();
    if l < 9 {
        return None;
    }
    if !(name.get_char(0) == 'l' && name.get_char(1) == 'o' && name.get_char(2) == 'g'
        && name.get_char(3) == '_') {
        proof {
            assert(name@.subrange(0, 4) == "log_"@ ==> name@[0] == 'l' && name@[1] == 'o'
                && name@[2] == 'g' && name@[3] == '_') by {
                if name@.subrange(0, 4) == "log_"@ {
                    assert(name@[0] == name@.subrange(0, 4)[0]);
                    assert(name@[1] == name@.subrange(0, 4)[1]);
                    assert(name@[2] == name@.subrange(0, 4)[2]);
                    assert(name@[3] == name@.subrange(0, 4)[3]);
                }
            }
        }
        return None;
    }
    if !(name.get_char(l - 4) == '.' && name.get_char(l - 3) == 'b' && name.get_char(l - 2) == 'i'
        && name.get_char(l - 1) == 'n') {
        proof {
            let tail = name@.subrange(name@.len() - 4, name@.len() as int);
            assert(tail == ".bin"@ ==> name@[name@.len() - 4] == '.' && name@[name@.len() - 3]
                == 'b' && name@[name@.len() - 2] == 'i' && name@[name@.len() - 1] == 'n') by {
                if tail == ".bin"@ {
                    assert(name@[name@.len() - 4] == tail[0]);
                    assert(name@[name@.len() - 3] == tail[1]);
                    assert(name@[name@.len() - 2] == tail[2]);
                    assert(name@[name@.len() - 1] == tail[3]);
                }
            }
        }
        return None;
    }
    proof {
        assert(name@.subrange(0, 4) =~= "log_"@);
        assert(name@.subrange(name@.len() - 4, name@.len() as int) =~= ".bin"@);
    }
    parse_dec_range(name, 4, l - 4)
}

} // verus!
