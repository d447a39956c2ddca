//! The staged two-phase storage committer.
//!
//! Slots are staged into range directories as they finish; when the trigger
//! slot of a range arrives (`slot mod slot_range == commit_slot_delay`),
//! every staged range except the one containing that slot is relocated,
//! whole, from the staging tree to the ready tree. The delay offset gives
//! writes near a range boundary time to land in staging before their range
//! is swept. A range moved to ready is never touched again.
//!
//! The manager keeps an exact model of both trees — which range holds which
//! slot's cells — and hands the caller a plan of file operations that
//! realizes each step on disk.

use vstd::prelude::*;
use crate::cells::{Cell, CellV, cell_views, build_slot_cells, spec_slot_cells, spec_table_name,
    spec_ext_name};
use crate::config::GeyserPluginCosConfig;
use crate::errors::GeyserPluginCosError;
use crate::keys::{spec_range_start, range_start, spec_range_dir_name, format_slot_range,
    spec_slot_dir_name, format_slot_single};
use crate::records::CosVersionedConfirmedBlockWithEntries;

verus! {

/// One file operation of a save plan, for the file layer to carry out under
/// the workspace root. Paths are given as the verified directory names.
pub enum FsOp {
    /// Remove and recreate `staging/<range>/<slot>`, so a retried save
    /// overwrites cleanly.
    ClearSlotDir { range: String, slot: String },
    /// Write one cell file `staging/<range>/<slot>/<table>/<file>`.
    WriteCell { range: String, slot: String, table: String, file: String, data: Vec<u8> },
    /// Rename `staging/<range>` to `storage/<range>`.
    MoveRange { range: String },
}

/// The value of an `FsOp`.
#[verifier::ext_equal]
pub enum FsOpV {
    ClearSlotDir { range: Seq<char>, slot: Seq<char> },
    WriteCell {
        range: Seq<char>,
        slot: Seq<char>,
        table: Seq<char>,
        file: Seq<char>,
        data: Seq<u8>,
    },
    MoveRange { range: Seq<char> },
}

impl View for FsOp {
    type V = FsOpV;

    open spec fn view(&self) -> FsOpV {
        match self {
            FsOp::ClearSlotDir { range, slot } => FsOpV::ClearSlotDir {
                range: range@,
                slot: slot@,
            },
            FsOp::WriteCell { range, slot, table, file, data } => FsOpV::WriteCell {
                range: range@,
                slot: slot@,
                table: table@,
                file: file@,
                data: data@,
            },
            FsOp::MoveRange { range } => FsOpV::MoveRange { range: range@ },
        }
    }
}

/// The views of a plan.
pub open spec fn fsop_views(s: Seq<FsOp>) -> Seq<FsOpV> {
    s.map_values(|o: FsOp| o@)
}

/// The staged cells of one slot.
pub struct SlotDir {
    pub slot: u64,
    pub cells: Vec<Cell>,
}

/// One range directory: its first slot, and the slots staged under it.
pub struct RangeDir {
    pub start: u64,
    pub slots: Vec<SlotDir>,
}

/// The content of a range directory: each staged slot's cells.
pub open spec fn slots_view(slots: Seq<SlotDir>) -> Map<u64, Seq<CellV>>
    decreases slots.len(),
{
    if slots.len() == 0 {
        Map::empty()
    } else {
        slots_view(slots.drop_last()).insert(
            slots.last().slot,
            cell_views(slots.last().cells@),
        )
    }
}

/// The content of a tree: each range's content, by range start.
pub open spec fn dirs_view(dirs: Seq<RangeDir>) -> Map<u64, Map<u64, Seq<CellV>>>
    decreases dirs.len(),
{
    if dirs.len() == 0 {
        Map::empty()
    } else {
        dirs_view(dirs.drop_last()).insert(
            dirs.last().start,
            slots_view(dirs.last().slots@),
        )
    }
}

/// A range's content holds exactly the slots listed in it.
proof fn lemma_slots_view_contains(slots: Seq<SlotDir>)
    ensures
        forall|x: u64|
            #[trigger] slots_view(slots).contains_key(x) <==> exists|i: int|
                0 <= i < slots.len() && (#[trigger] slots[i]).slot == x,
    decreases slots.len(),
{
    if slots.len() > 0 {
        let rest = slots.drop_last();
        lemma_slots_view_contains(rest);
        assert(forall|i: int| 0 <= i < rest.len() ==> rest[i] == slots[i]);
        assert forall|x: u64| #[trigger] slots_view(slots).contains_key(x) implies exists|i: int|
            0 <= i < slots.len() && (#[trigger] slots[i]).slot == x by {
            if x == slots.last().slot {
                assert(slots[slots.len() - 1].slot == x);
            } else {
                assert(slots_view(rest).contains_key(x));
                let i = choose|i: int| 0 <= i < rest.len() && (#[trigger] rest[i]).slot == x;
                assert(slots[i].slot == x);
            }
        }
        assert forall|x: u64|
            (exists|i: int| 0 <= i < slots.len() && (#[trigger] slots[i]).slot == x)
            implies #[trigger] slots_view(slots).contains_key(x) by {
            let i = choose|i: int| 0 <= i < slots.len() && (#[trigger] slots[i]).slot == x;
            if i < slots.len() - 1 {
                assert(rest[i].slot == x);
                assert(slots_view(rest).contains_key(x));
            }
        }
    }
}

/// With distinct slots, a range's content maps each listed slot to its
/// cells.
proof fn lemma_slots_view_index(slots: Seq<SlotDir>, i: int)
    requires
        0 <= i < slots.len(),
        forall|j1: int, j2: int|
            0 <= j1 < slots.len() && 0 <= j2 < slots.len() && j1 != j2 ==> (#[trigger] slots[j1]).slot
                != (#[trigger] slots[j2]).slot,
    ensures
        slots_view(slots).contains_key(slots[i].slot),
        slots_view(slots)[slots[i].slot] == cell_views(slots[i].cells@),
    decreases slots.len(),
{
    if i == slots.len() - 1 {
    } else {
        assert(forall|j: int| 0 <= j < slots.len() - 1 ==> slots.drop_last()[j] == slots[j]);
        lemma_slots_view_index(slots.drop_last(), i);
        assert(slots[i].slot != slots.last().slot);
    }
}

/// A tree's content holds exactly the ranges listed in it.
proof fn lemma_dirs_view_contains(dirs: Seq<RangeDir>)
    ensures
        forall|x: u64|
            #[trigger] dirs_view(dirs).contains_key(x) <==> exists|i: int|
                0 <= i < dirs.len() && (#[trigger] dirs[i]).start == x,
    decreases dirs.len(),
{
    if dirs.len() > 0 {
        let rest = dirs.drop_last();
        lemma_dirs_view_contains(rest);
        assert(forall|i: int| 0 <= i < rest.len() ==> rest[i] == dirs[i]);
        assert forall|x: u64| #[trigger] dirs_view(dirs).contains_key(x) implies exists|i: int|
            0 <= i < dirs.len() && (#[trigger] dirs[i]).start == x by {
            if x == dirs.last().start {
                assert(dirs[dirs.len() - 1].start == x);
            } else {
                assert(dirs_view(rest).contains_key(x));
                let i = choose|i: int| 0 <= i < rest.len() && (#[trigger] rest[i]).start == x;
                assert(dirs[i].start == x);
            }
        }
        assert forall|x: u64|
            (exists|i: int| 0 <= i < dirs.len() && (#[trigger] dirs[i]).start == x)
            implies #[trigger] dirs_view(dirs).contains_key(x) by {
            let i = choose|i: int| 0 <= i < dirs.len() && (#[trigger] dirs[i]).start == x;
            if i < dirs.len() - 1 {
                assert(rest[i].start == x);
                assert(dirs_view(rest).contains_key(x));
            }
        }
    }
}

/// With distinct starts, a tree's content maps each listed range to its
/// content.
proof fn lemma_dirs_view_index(dirs: Seq<RangeDir>, i: int)
    requires
        0 <= i < dirs.len(),
        forall|j1: int, j2: int|
            0 <= j1 < dirs.len() && 0 <= j2 < dirs.len() && j1 != j2 ==> (#[trigger] dirs[j1]).start
                != (#[trigger] dirs[j2]).start,
    ensures
        dirs_view(dirs).contains_key(dirs[i].start),
        dirs_view(dirs)[dirs[i].start] == slots_view(dirs[i].slots@),
    decreases dirs.len(),
{
    if i == dirs.len() - 1 {
    } else {
        assert(forall|j: int| 0 <= j < dirs.len() - 1 ==> dirs.drop_last()[j] == dirs[j]);
        lemma_dirs_view_index(dirs.drop_last(), i);
        assert(dirs[i].start != dirs.last().start);
    }
}

/// With distinct slots, replacing the slot at one position replaces just
/// that slot's content.
proof fn lemma_slots_view_update(slots: Seq<SlotDir>, i: int, d: SlotDir)
    requires
        0 <= i < slots.len(),
        d.slot == slots[i].slot,
        forall|j1: int, j2: int|
            0 <= j1 < slots.len() && 0 <= j2 < slots.len() && j1 != j2 ==> (#[trigger] slots[j1]).slot
                != (#[trigger] slots[j2]).slot,
    ensures
        slots_view(slots.update(i, d)) == slots_view(slots).insert(
            d.slot,
            cell_views(d.cells@),
        ),
    decreases slots.len(),
{
    let upd = slots.update(i, d);
    if i == slots.len() - 1 {
        assert(upd.drop_last() =~= slots.drop_last());
        assert(upd.last() == d);
        assert(slots_view(upd) =~= slots_view(slots).insert(d.slot, cell_views(d.cells@)));
    } else {
        assert(upd.drop_last() =~= slots.drop_last().update(i, d));
        assert(forall|j: int| 0 <= j < slots.len() - 1 ==> slots.drop_last()[j] == slots[j]);
        lemma_slots_view_update(slots.drop_last(), i, d);
        assert(upd.last() == slots.last());
        assert(d.slot != slots.last().slot);
        assert(slots_view(upd) =~= slots_view(slots).insert(d.slot, cell_views(d.cells@)));
    }
}

/// With distinct starts, replacing the range at one position replaces just
/// that range's content.
proof fn lemma_dirs_view_update(dirs: Seq<RangeDir>, i: int, d: RangeDir)
    requires
        0 <= i < dirs.len(),
        d.start == dirs[i].start,
        forall|j1: int, j2: int|
            0 <= j1 < dirs.len() && 0 <= j2 < dirs.len() && j1 != j2 ==> (#[trigger] dirs[j1]).start
                != (#[trigger] dirs[j2]).start,
    ensures
        dirs_view(dirs.update(i, d)) == dirs_view(dirs).insert(d.start, slots_view(d.slots@)),
    decreases dirs.len(),
{
    let upd = dirs.update(i, d);
    if i == dirs.len() - 1 {
        assert(upd.drop_last() =~= dirs.drop_last());
        assert(upd.last() == d);
        assert(dirs_view(upd) =~= dirs_view(dirs).insert(d.start, slots_view(d.slots@)));
    } else {
        assert(upd.drop_last() =~= dirs.drop_last().update(i, d));
        assert(forall|j: int| 0 <= j < dirs.len() - 1 ==> dirs.drop_last()[j] == dirs[j]);
        lemma_dirs_view_update(dirs.drop_last(), i, d);
        assert(upd.last() == dirs.last());
        assert(d.start != dirs.last().start);
        assert(dirs_view(upd) =~= dirs_view(dirs).insert(d.start, slots_view(d.slots@)));
    }
}

/// Appending a range adds exactly that range's content.
proof fn lemma_dirs_view_push(dirs: Seq<RangeDir>, d: RangeDir)
    ensures
        dirs_view(dirs.push(d)) == dirs_view(dirs).insert(d.start, slots_view(d.slots@)),
{
    assert(dirs.push(d).drop_last() =~= dirs);
    assert(dirs.push(d).last() == d);
}

/// Appending a slot adds exactly that slot's content.
proof fn lemma_slots_view_push(slots: Seq<SlotDir>, d: SlotDir)
    ensures
        slots_view(slots.push(d)) == slots_view(slots).insert(d.slot, cell_views(d.cells@)),
{
    assert(slots.push(d).drop_last() =~= slots);
    assert(slots.push(d).last() == d);
}

/// Staging one slot's cells: the slot's entry in its range is written,
/// creating the range if it is new.
pub open spec fn spec_stage(
    st: Map<u64, Map<u64, Seq<CellV>>>,
    range: u64,
    slot: u64,
    cells: Seq<CellV>,
) -> Map<u64, Map<u64, Seq<CellV>>> {
    let range_content = if st.contains_key(range) {
        st[range]
    } else {
        Map::empty()
    };
    st.insert(range, range_content.insert(slot, cells))
}

/// What stays in staging after a commit that keeps one range.
pub open spec fn spec_commit_staging(st: Map<u64, Map<u64, Seq<CellV>>>, keep: u64) -> Map<
    u64,
    Map<u64, Seq<CellV>>,
> {
    st.restrict(set![keep])
}

/// Whether everything the ready tree held is still there, unchanged: the
/// ready tree is immutable but for gaining whole ranges.
pub open spec fn ready_preserved(
    a: Map<u64, Map<u64, Seq<CellV>>>,
    b: Map<u64, Map<u64, Seq<CellV>>>,
) -> bool {
    forall|k: u64| #[trigger] a.contains_key(k) ==> b.contains_key(k) && b[k] == a[k]
}

/// What the ready tree holds after a commit: everything it held, plus every
/// staged range but the kept one.
pub open spec fn spec_commit_ready(
    st: Map<u64, Map<u64, Seq<CellV>>>,
    ready: Map<u64, Map<u64, Seq<CellV>>>,
    keep: u64,
) -> Map<u64, Map<u64, Seq<CellV>>> {
    ready.union_prefer_right(st.remove(keep))
}

/// No two listed ranges share a start.
pub open spec fn dirs_distinct(dirs: Seq<RangeDir>) -> bool {
    forall|i: int, j: int|
        0 <= i < dirs.len() && 0 <= j < dirs.len() && i != j ==> (#[trigger] dirs[i]).start
            != (#[trigger] dirs[j]).start
}

/// No two listed slots share a number.
pub open spec fn slots_distinct(slots: Seq<SlotDir>) -> bool {
    forall|i: int, j: int|
        0 <= i < slots.len() && 0 <= j < slots.len() && i != j ==> (#[trigger] slots[i]).slot
            != (#[trigger] slots[j]).slot
}

/// Every listed range starts on a range boundary and its end fits.
pub open spec fn dirs_bounds(dirs: Seq<RangeDir>, slot_range: u64) -> bool {
    forall|i: int|
        0 <= i < dirs.len() ==> (#[trigger] dirs[i]).start % slot_range == 0 && dirs[i].start
            + slot_range <= u64::MAX
}

/// The staging order after one slot is staged: unchanged if its range was
/// already staged, else with the new range at the end.
pub open spec fn spec_order_after_stage(order: Seq<u64>, range: u64) -> Seq<u64> {
    if order.contains(range) {
        order
    } else {
        order.push(range)
    }
}

/// The ranges a commit relocates, in staging order: every staged range but
/// the kept one.
pub open spec fn spec_moves_of_order(order: Seq<u64>, keep: u64) -> Seq<u64>
    decreases order.len(),
{
    if order.len() == 0 {
        Seq::empty()
    } else {
        let p = spec_moves_of_order(order.drop_last(), keep);
        if order.last() == keep {
            p
        } else {
            p.push(order.last())
        }
    }
}

/// Every relocated range was staged.
proof fn lemma_moves_of_order_elements(order: Seq<u64>, keep: u64)
    ensures
        forall|i: int|
            0 <= i < spec_moves_of_order(order, keep).len() ==> exists|j: int|
                0 <= j < order.len() && #[trigger] spec_moves_of_order(order, keep)[i]
                    == #[trigger] order[j],
        forall|i: int|
            0 <= i < spec_moves_of_order(order, keep).len()
                ==> #[trigger] spec_moves_of_order(order, keep)[i] != keep,
    decreases order.len(),
{
    if order.len() > 0 {
        let rest = order.drop_last();
        lemma_moves_of_order_elements(rest, keep);
        let p = spec_moves_of_order(rest, keep);
        let m = spec_moves_of_order(order, keep);
        assert(forall|j: int| 0 <= j < rest.len() ==> rest[j] == order[j]);
        assert forall|i: int| 0 <= i < m.len() implies exists|j: int|
            0 <= j < order.len() && #[trigger] m[i] == #[trigger] order[j] by {
            if i < p.len() {
                let j = choose|j: int| 0 <= j < rest.len() && p[i] == rest[j];
                assert(m[i] == order[j]);
            } else {
                assert(m[i] == order[order.len() - 1]);
            }
        }
    }
}

/// The range directories a commit keeps: those whose start is the kept one.
pub open spec fn spec_kept_dirs(dirs: Seq<RangeDir>, keep: u64) -> Seq<RangeDir>
    decreases dirs.len(),
{
    if dirs.len() == 0 {
        Seq::empty()
    } else {
        let p = spec_kept_dirs(dirs.drop_last(), keep);
        if dirs.last().start == keep {
            p.push(dirs.last())
        } else {
            p
        }
    }
}

/// The range directories a commit moves: every staged range but the kept
/// one, in staging order.
pub open spec fn spec_moved_dirs(dirs: Seq<RangeDir>, keep: u64) -> Seq<RangeDir>
    decreases dirs.len(),
{
    if dirs.len() == 0 {
        Seq::empty()
    } else {
        let p = spec_moved_dirs(dirs.drop_last(), keep);
        if dirs.last().start == keep {
            p
        } else {
            p.push(dirs.last())
        }
    }
}

/// The staged starts a commit keeps.
pub open spec fn spec_order_after_commit(order: Seq<u64>, keep: u64) -> Seq<u64>
    decreases order.len(),
{
    if order.len() == 0 {
        Seq::empty()
    } else {
        let p = spec_order_after_commit(order.drop_last(), keep);
        if order.last() == keep {
            p.push(order.last())
        } else {
            p
        }
    }
}

/// When no staged range has the kept start, nothing is kept.
proof fn lemma_kept_dirs_none(dirs: Seq<RangeDir>, keep: u64)
    requires
        forall|i: int| 0 <= i < dirs.len() ==> (#[trigger] dirs[i]).start != keep,
    ensures
        spec_kept_dirs(dirs, keep) == Seq::<RangeDir>::empty(),
    decreases dirs.len(),
{
    if dirs.len() > 0 {
        let rest = dirs.drop_last();
        assert(forall|i: int| 0 <= i < rest.len() ==> rest[i] == dirs[i]);
        lemma_kept_dirs_none(rest, keep);
    }
}

/// With distinct starts, at most one directory is kept.
proof fn lemma_kept_dirs_len(dirs: Seq<RangeDir>, keep: u64)
    requires
        dirs_distinct(dirs),
    ensures
        spec_kept_dirs(dirs, keep).len() <= 1,
    decreases dirs.len(),
{
    if dirs.len() > 0 {
        let rest = dirs.drop_last();
        assert(forall|i: int| 0 <= i < rest.len() ==> rest[i] == dirs[i]);
        if dirs.last().start == keep {
            assert(forall|i: int| 0 <= i < rest.len() ==> (#[trigger] rest[i]).start != keep);
            lemma_kept_dirs_none(rest, keep);
        } else {
            lemma_kept_dirs_len(rest, keep);
        }
    }
}

/// With distinct starts, the kept directories hold exactly the kept range's
/// content, and each of them is one of the staged directories.
proof fn lemma_kept_dirs(dirs: Seq<RangeDir>, keep: u64)
    requires
        dirs_distinct(dirs),
    ensures
        dirs_view(spec_kept_dirs(dirs, keep)) == dirs_view(dirs).restrict(set![keep]),
        forall|i: int|
            0 <= i < spec_kept_dirs(dirs, keep).len() ==> exists|j: int|
                0 <= j < dirs.len() && #[trigger] spec_kept_dirs(dirs, keep)[i]
                    == #[trigger] dirs[j],
        forall|i: int|
            0 <= i < spec_kept_dirs(dirs, keep).len()
                ==> (#[trigger] spec_kept_dirs(dirs, keep)[i]).start == keep,
        spec_kept_dirs(dirs, keep).map_values(|d: RangeDir| d.start) == spec_order_after_commit(
            dirs.map_values(|d: RangeDir| d.start),
            keep,
        ),
    decreases dirs.len(),
{
    let kept = spec_kept_dirs(dirs, keep);
    let order = dirs.map_values(|d: RangeDir| d.start);
    if dirs.len() == 0 {
        assert(dirs_view(kept) =~= dirs_view(dirs).restrict(set![keep]));
        assert(order =~= Seq::<u64>::empty());
        assert(kept.map_values(|d: RangeDir| d.start) =~= spec_order_after_commit(order, keep));
    } else {
        let rest = dirs.drop_last();
        assert(forall|i: int| 0 <= i < rest.len() ==> rest[i] == dirs[i]);
        lemma_kept_dirs(rest, keep);
        let p = spec_kept_dirs(rest, keep);
        assert(order.drop_last() =~= rest.map_values(|d: RangeDir| d.start));
        assert(order.last() == dirs.last().start);
        if dirs.last().start == keep {
            crate::records::lemma_map_values_push(p, |d: RangeDir| d.start, dirs.last());
            lemma_dirs_view_push(p, dirs.last());
            assert(dirs_view(kept) =~= dirs_view(dirs).restrict(set![keep]));
            assert(kept.map_values(|d: RangeDir| d.start) =~= spec_order_after_commit(
                order,
                keep,
            ));
            assert forall|i: int| 0 <= i < kept.len() implies exists|j: int|
                0 <= j < dirs.len() && #[trigger] kept[i] == #[trigger] dirs[j] by {
                if i < p.len() {
                    let j = choose|j: int| 0 <= j < rest.len() && p[i] == rest[j];
                    assert(kept[i] == dirs[j]);
                } else {
                    assert(kept[i] == dirs[dirs.len() - 1]);
                }
            }
        } else {
            assert(dirs_view(kept) =~= dirs_view(dirs).restrict(set![keep]));
            assert(kept.map_values(|d: RangeDir| d.start) =~= spec_order_after_commit(
                order,
                keep,
            ));
            assert forall|i: int| 0 <= i < kept.len() implies exists|j: int|
                0 <= j < dirs.len() && #[trigger] kept[i] == #[trigger] dirs[j] by {
                let j = choose|j: int| 0 <= j < rest.len() && p[i] == rest[j];
                assert(kept[i] == dirs[j]);
            }
        }
    }
}

/// With distinct starts, the moved directories hold exactly the staged
/// content minus the kept range, and their starts are the staged starts but
/// the kept one.
proof fn lemma_moved_dirs(dirs: Seq<RangeDir>, keep: u64)
    requires
        dirs_distinct(dirs),
    ensures
        dirs_view(spec_moved_dirs(dirs, keep)) == dirs_view(dirs).remove(keep),
        spec_moved_dirs(dirs, keep).map_values(|d: RangeDir| d.start) == spec_moves_of_order(
            dirs.map_values(|d: RangeDir| d.start),
            keep,
        ),
    decreases dirs.len(),
{
    let moved = spec_moved_dirs(dirs, keep);
    let order = dirs.map_values(|d: RangeDir| d.start);
    if dirs.len() == 0 {
        assert(dirs_view(moved) =~= dirs_view(dirs).remove(keep));
        assert(order =~= Seq::<u64>::empty());
        assert(moved.map_values(|d: RangeDir| d.start) =~= spec_moves_of_order(order, keep));
    } else {
        let rest = dirs.drop_last();
        assert(forall|i: int| 0 <= i < rest.len() ==> rest[i] == dirs[i]);
        lemma_moved_dirs(rest, keep);
        let p = spec_moved_dirs(rest, keep);
        assert(order.drop_last() =~= rest.map_values(|d: RangeDir| d.start));
        assert(order.last() == dirs.last().start);
        if dirs.last().start == keep {
            assert(dirs_view(moved) =~= dirs_view(dirs).remove(keep));
            assert(moved.map_values(|d: RangeDir| d.start) =~= spec_moves_of_order(order, keep));
        } else {
            crate::records::lemma_map_values_push(p, |d: RangeDir| d.start, dirs.last());
            lemma_dirs_view_push(p, dirs.last());
            assert(dirs_view(moved) =~= dirs_view(dirs).remove(keep));
            assert(moved.map_values(|d: RangeDir| d.start) =~= spec_moves_of_order(order, keep));
        }
    }
}

/// A tree's content distributes over concatenation, later ranges winning —
/// which never matters here, since starts never collide.
proof fn lemma_dirs_view_concat(a: Seq<RangeDir>, b: Seq<RangeDir>)
    ensures
        dirs_view(a + b) == dirs_view(a).union_prefer_right(dirs_view(b)),
    decreases b.len(),
{
    if b.len() == 0 {
        assert(a + b =~= a);
        assert(dirs_view(a).union_prefer_right(dirs_view(b)) =~= dirs_view(a));
    } else {
        lemma_dirs_view_concat(a, b.drop_last());
        assert((a + b).drop_last() =~= a + b.drop_last());
        assert((a + b).last() == b.last());
        assert(dirs_view(a + b) =~= dirs_view(a).union_prefer_right(dirs_view(b)));
    }
}

/// Finds the position of a range in the tree, scanning from the front.
fn find_range_index(dirs: &Vec<RangeDir>, start: u64) -> (r: Option<usize>)
    ensures
        r matches Some(i) ==> i < dirs@.len() && dirs@[i as int].start == start && forall|j: int|
            0 <= j < i ==> (#[trigger] dirs@[j]).start != start,
        r is None ==> forall|j: int| 0 <= j < dirs@.len() ==> (#[trigger] dirs@[j]).start != start,
{
    let mut i: usize = 0;
    while i < dirs.len()
        invariant
            i <= dirs@.len(),
            forall|j: int| 0 <= j < i ==> (#[trigger] dirs@[j]).start != start,
        decreases dirs@.len() - i,
    {
        if dirs[i].start == start {
            return Some(i);
        }
        i = i + 1;
    }
    None
}

/// Finds the position of a slot in a range, scanning from the front.
fn find_slot_index(slots: &Vec<SlotDir>, slot: u64) -> (r: Option<usize>)
    ensures
        r matches Some(i) ==> i < slots@.len() && slots@[i as int].slot == slot && forall|j: int|
            0 <= j < i ==> (#[trigger] slots@[j]).slot != slot,
        r is None ==> forall|j: int| 0 <= j < slots@.len() ==> (#[trigger] slots@[j]).slot != slot,
{
    let mut i: usize = 0;
    while i < slots.len()
        invariant
            i <= slots@.len(),
            forall|j: int| 0 <= j < i ==> (#[trigger] slots@[j]).slot != slot,
        decreases slots@.len() - i,
    {
        if slots[i].slot == slot {
            return Some(i);
        }
        i = i + 1;
    }
    None
}

/// Manages the staging and ready trees and decides when ranges move.
pub struct StorageManager {
    /// The number of slots in each range.
    slot_range: u64,
    /// How far into a range the commit trigger slot lies.
    commit_slot_delay: u64,
    /// The ranges still receiving writes.
    staging: Vec<RangeDir>,
    /// The ranges proven complete and relocated; never mutated again.
    ready: Vec<RangeDir>,
}

impl StorageManager {
    /// The manager's structural invariant.
    pub closed spec fn wf(&self) -> bool {
        &&& self.slot_range >= 1
        &&& dirs_distinct(self.staging@)
        &&& dirs_bounds(self.staging@, self.slot_range)
        &&& forall|i: int|
            0 <= i < self.staging@.len() ==> slots_distinct((#[trigger] self.staging@[i]).slots@)
    }

    /// The staging tree's content.
    pub closed spec fn spec_staging(&self) -> Map<u64, Map<u64, Seq<CellV>>> {
        dirs_view(self.staging@)
    }

    /// The ready tree's content.
    pub closed spec fn spec_ready(&self) -> Map<u64, Map<u64, Seq<CellV>>> {
        dirs_view(self.ready@)
    }

    /// The staged range starts, oldest first.
    pub closed spec fn spec_staging_order(&self) -> Seq<u64> {
        self.staging@.map_values(|d: RangeDir| d.start)
    }

    /// The configured range size.
    pub closed spec fn spec_slot_range(&self) -> u64 {
        self.slot_range
    }

    /// The configured trigger offset.
    pub closed spec fn spec_commit_slot_delay(&self) -> u64 {
        self.commit_slot_delay
    }

    /// A fresh manager over empty trees. The caller starts from a clean
    /// staging directory, so the model starts empty too.
    pub fn new(config: &GeyserPluginCosConfig) -> (r: Self)
        requires
            config.slot_range >= 1,
        ensures
            r.wf(),
            r.spec_staging() == Map::<u64, Map<u64, Seq<CellV>>>::empty(),
            r.spec_ready() == Map::<u64, Map<u64, Seq<CellV>>>::empty(),
            r.spec_staging_order() == Seq::<u64>::empty(),
            r.spec_slot_range() == config.slot_range,
            r.spec_commit_slot_delay() == config.commit_slot_delay,
    {
        let r = StorageManager {
            slot_range: config.slot_range,
            commit_slot_delay: config.commit_slot_delay,
            staging: Vec::new(),
            ready: Vec::new(),
        };
        proof {
            assert(r.spec_staging_order() =~= Seq::<u64>::empty());
        }
        r
    }

    /// Writes one slot's cells into its range of the staging tree.
    fn stage_slot(&mut self, slot: u64, cells: Vec<Cell>)
        requires
            old(self).wf(),
            spec_range_start(slot, old(self).spec_slot_range()) + old(self).spec_slot_range()
                <= u64::MAX,
        ensures
            final(self).wf(),
            final(self).spec_slot_range() == old(self).spec_slot_range(),
            final(self).spec_commit_slot_delay() == old(self).spec_commit_slot_delay(),
            final(self).spec_ready() == old(self).spec_ready(),
            final(self).spec_staging() == spec_stage(
                old(self).spec_staging(),
                spec_range_start(slot, old(self).spec_slot_range()),
                slot,
                cell_views(cells@),
            ),
            final(self).spec_staging_order() == spec_order_after_stage(
                old(self).spec_staging_order(),
                spec_range_start(slot, old(self).spec_slot_range()),
            ),
    {
        let ghost cellsv = cell_views(cells@);
        let range = range_start(slot, self.slot_range);
        proof {
            crate::keys::lemma_range_start_properties(slot, self.slot_range);
            lemma_dirs_view_contains(self.staging@);
        }
        match find_range_index(&self.staging, range) {
            Some(i) => {
                proof {
                    lemma_dirs_view_index(self.staging@, i as int);
                }
                let ghost old_dirs = self.staging@;
                let mut dir = self.staging.remove(i);
                proof {
                    lemma_slots_view_contains(dir.slots@);
                }
                match find_slot_index(&dir.slots, slot) {
                    Some(j) => {
                        let ghost old_slots = dir.slots@;
                        let mut sd = dir.slots.remove(j);
                        sd.cells = cells;
                        let ghost sdx = sd;
                        dir.slots.insert(j, sd);
                        proof {
                            assert(dir.slots@ =~= old_slots.update(j as int, sdx));
                            lemma_slots_view_update(old_slots, j as int, sdx);
                        }
                    },
                    None => {
                        let sd = SlotDir { slot, cells };
                        let ghost sdx = sd;
                        let ghost old_slots = dir.slots@;
                        dir.slots.push(sd);
                        proof {
                            lemma_slots_view_push(old_slots, sdx);
                        }
                    },
                }
                let ghost dx = dir;
                self.staging.insert(i, dir);
                proof {
                    assert(self.staging@ =~= old_dirs.update(i as int, dx));
                    lemma_dirs_view_update(old_dirs, i as int, dx);
                    assert(self.spec_staging() =~= spec_stage(
                        dirs_view(old_dirs),
                        range,
                        slot,
                        cellsv,
                    ));
                    assert(self.spec_staging_order() =~= old(self).spec_staging_order());
                    assert(old(self).spec_staging_order().contains(range)) by {
                        assert(old(self).spec_staging_order()[i as int] == range);
                    }
                }
            },
            None => {
                let sd = SlotDir { slot, cells };
                let ghost sdx = sd;
                let mut new_slots: Vec<SlotDir> = Vec::new();
                new_slots.push(sd);
                proof {
                    assert(new_slots@ =~= seq![sdx]);
                    assert(new_slots@.drop_last() =~= Seq::<SlotDir>::empty());
                    assert(new_slots@.last() == sdx);
                    assert(sdx.slot == slot);
                    assert(cell_views(sdx.cells@) == cellsv);
                    assert(slots_view(Seq::<SlotDir>::empty()) =~= Map::<u64, Seq<CellV>>::empty());
                    assert(slots_view(new_slots@) =~= Map::<u64, Seq<CellV>>::empty().insert(
                        slot,
                        cellsv,
                    ));
                }
                let dir = RangeDir { start: range, slots: new_slots };
                let ghost dx = dir;
                let ghost old_dirs = self.staging@;
                self.staging.push(dir);
                proof {
                    lemma_dirs_view_push(old_dirs, dx);
                    assert(dx.slots@ == seq![sdx]);
                    assert(slots_view(dx.slots@) =~= Map::<u64, Seq<CellV>>::empty().insert(
                        slot,
                        cellsv,
                    ));
                    assert(self.spec_staging() =~= spec_stage(
                        dirs_view(old_dirs),
                        range,
                        slot,
                        cellsv,
                    ));
                    crate::records::lemma_map_values_push(
                        old_dirs,
                        |d: RangeDir| d.start,
                        dx,
                    );
                    assert(!old(self).spec_staging_order().contains(range)) by {
                        if old(self).spec_staging_order().contains(range) {
                            let j = choose|j: int|
                                0 <= j < old(self).spec_staging_order().len()
                                    && old(self).spec_staging_order()[j] == range;
                            assert(old_dirs[j].start == range);
                        }
                    }
                }
            },
        }
    }
    /// A well-formed manager has a positive range size.
    pub proof fn lemma_wf_positive_range(&self)
        requires
            self.wf(),
        ensures
            self.spec_slot_range() >= 1,
    {
    }

    /// The configured range size.
    pub fn slot_range_config(&self) -> (r: u64)
        ensures
            r == self.spec_slot_range(),
    {
        self.slot_range
    }

    /// The configured trigger offset.
    pub fn commit_slot_delay_config(&self) -> (r: u64)
        ensures
            r == self.spec_commit_slot_delay(),
    {
        self.commit_slot_delay
    }

    /// The staged range starts, oldest first.
    pub fn staging_ranges(&self) -> (r: Vec<u64>)
        ensures
            r@ == self.spec_staging_order(),
    {
        let mut out: Vec<u64> = Vec::new();
        let mut i: usize = 0;
        while i < self.staging.len()
            invariant
                i <= self.staging@.len(),
                out@ == self.spec_staging_order().take(i as int),
            decreases self.staging@.len() - i,
        {
            out.push(self.staging[i].start);
            assert(out@ =~= self.spec_staging_order().take(i + 1));
            i = i + 1;
        }
        assert(self.spec_staging_order().take(self.staging@.len() as int)
            =~= self.spec_staging_order());
        out
    }

    /// Whether the staging tree holds a range.
    pub fn staging_has_range(&self, start: u64) -> (r: bool)
        ensures
            r == self.spec_staging().contains_key(start),
    {
        Self::tree_contains(&self.staging, start)
    }

    /// Whether the ready tree holds a range.
    pub fn ready_has_range(&self, start: u64) -> (r: bool)
        ensures
            r == self.spec_ready().contains_key(start),
    {
        Self::tree_contains(&self.ready, start)
    }

    /// Whether the tree lists a range.
    fn tree_contains(dirs: &Vec<RangeDir>, start: u64) -> (r: bool)
        ensures
            r == dirs_view(dirs@).contains_key(start),
    {
        proof {
            lemma_dirs_view_contains(dirs@);
        }
        match find_range_index(dirs, start) {
            Some(i) => {
                proof {
                    assert(dirs@[i as int].start == start);
                }
                true
            },
            None => false,
        }
    }

    /// On the trigger slot of a range — `slot mod slot_range` equal to the
    /// commit delay — relocates every staged range except the one containing
    /// that slot from staging to ready, and reports the moved range starts
    /// in staging order. On any other slot, does nothing.
    ///
    /// Fails, changing nothing, exactly when some range to move already
    /// exists in the ready tree, where nothing may ever be overwritten.
    pub fn commit_to_storage(&mut self, current_slot: u64) -> (r: Result<
        Vec<u64>,
        GeyserPluginCosError,
    >)
        requires
            old(self).wf(),
        ensures
            final(self).wf(),
            final(self).spec_slot_range() == old(self).spec_slot_range(),
            final(self).spec_commit_slot_delay() == old(self).spec_commit_slot_delay(),
            ready_preserved(old(self).spec_ready(), final(self).spec_ready()),
            current_slot % old(self).spec_slot_range() != old(self).spec_commit_slot_delay() ==> {
                &&& r matches Ok(m) && m@ == Seq::<u64>::empty()
                &&& final(self).spec_staging() == old(self).spec_staging()
                &&& final(self).spec_ready() == old(self).spec_ready()
                &&& final(self).spec_staging_order() == old(self).spec_staging_order()
            },
            current_slot % old(self).spec_slot_range() == old(self).spec_commit_slot_delay() ==> {
                let keep = spec_range_start(current_slot, old(self).spec_slot_range());
                &&& (r is Err <==> exists|x: u64|
                    #[trigger] old(self).spec_staging().contains_key(x) && x != keep && old(
                        self,
                    ).spec_ready().contains_key(x))
                &&& (r is Err ==> {
                    &&& final(self).spec_staging() == old(self).spec_staging()
                    &&& final(self).spec_ready() == old(self).spec_ready()
                    &&& final(self).spec_staging_order() == old(self).spec_staging_order()
                    &&& r->Err_0 is InternalError
                })
                &&& (r matches Ok(m) ==> {
                    &&& m@ == spec_moves_of_order(old(self).spec_staging_order(), keep)
                    &&& final(self).spec_staging() == spec_commit_staging(
                        old(self).spec_staging(),
                        keep,
                    )
                    &&& final(self).spec_ready() == spec_commit_ready(
                        old(self).spec_staging(),
                        old(self).spec_ready(),
                        keep,
                    )
                    &&& final(self).spec_staging_order() == spec_order_after_commit(
                        old(self).spec_staging_order(),
                        keep,
                    )
                })
            },
    {
        if current_slot % self.slot_range != self.commit_slot_delay {
            let empty_moves: Vec<u64> = Vec::new();
            proof {
                assert(empty_moves@ =~= Seq::<u64>::empty());
            }
            return Ok(empty_moves);
        }
        let keep = range_start(current_slot, self.slot_range);
        proof {
            lemma_dirs_view_contains(self.staging@);
        }
        let mut i: usize = 0;
        while i < self.staging.len()
            invariant
                i <= self.staging@.len(),
                old(self).wf(),
                self.staging@ == old(self).staging@,
                self.ready@ == old(self).ready@,
                self.slot_range == old(self).slot_range,
                self.commit_slot_delay == old(self).commit_slot_delay,
                current_slot % old(self).spec_slot_range() == old(self).spec_commit_slot_delay(),
                keep == spec_range_start(current_slot, old(self).spec_slot_range()),
                forall|j: int|
                    0 <= j < i ==> ((#[trigger] self.staging@[j]).start == keep || !dirs_view(
                        self.ready@,
                    ).contains_key(self.staging@[j].start)),
            decreases self.staging@.len() - i,
        {
            let start = self.staging[i].start;
            if start != keep && Self::tree_contains(&self.ready, start) {
                proof {
                    lemma_dirs_view_contains(self.staging@);
                    assert(self.spec_staging().contains_key(start));
                }
                return Err(GeyserPluginCosError::InternalError {
                    msg: String::from_str("commit: a relocated range already exists in storage"),
                });
            }
            i = i + 1;
        }
        proof {
            assert forall|x: u64|
                #[trigger] old(self).spec_staging().contains_key(x) && x != keep implies !old(
                self,
            ).spec_ready().contains_key(x) by {
                let j = choose|j: int|
                    0 <= j < self.staging@.len() && (#[trigger] self.staging@[j]).start == x;
            }
        }
        let mut local: Vec<RangeDir> = Vec::new();
        core::mem::swap(&mut self.staging, &mut local);
        let ghost orig = local@;
        let mut kept: Vec<RangeDir> = Vec::new();
        let mut moves: Vec<u64> = Vec::new();
        let ghost old_ready = old(self).ready@;
        proof {
            assert(orig.take(0) =~= Seq::<RangeDir>::empty());
            assert(kept@ =~= spec_kept_dirs(orig.take(0), keep));
            assert(self.ready@ =~= old_ready + spec_moved_dirs(orig.take(0), keep));
            assert(moves@ =~= spec_moved_dirs(orig.take(0), keep).map_values(
                |d: RangeDir| d.start,
            ));
            assert(local@ =~= orig.subrange(0, orig.len() as int));
        }
        while local.len() > 0
            invariant
                local@.len() <= orig.len(),
                local@ == orig.subrange(
                    orig.len() - local@.len(),
                    orig.len() as int,
                ),
                kept@ == spec_kept_dirs(orig.take(orig.len() - local@.len()), keep),
                self.ready@ == old_ready + spec_moved_dirs(
                    orig.take(orig.len() - local@.len()),
                    keep,
                ),
                moves@ == spec_moved_dirs(orig.take(orig.len() - local@.len()), keep).map_values(
                    |d: RangeDir| d.start,
                ),
                self.slot_range == old(self).slot_range,
                self.commit_slot_delay == old(self).commit_slot_delay,
            decreases local@.len(),
        {
            let ghost k = orig.len() - local@.len();
            let d = local.remove(0);
            proof {
                assert(d == orig[k]);
                assert(local@ =~= orig.subrange(k + 1, orig.len() as int));
                assert(orig.take(k + 1).drop_last() =~= orig.take(k));
                assert(orig.take(k + 1).last() == orig[k]);
            }
            let ghost dx = d;
            if d.start == keep {
                let ghost pre_kept = kept@;
                kept.push(d);
                proof {
                    assert(kept@ =~= pre_kept.push(dx));
                }
            } else {
                moves.push(d.start);
                let ghost pre_ready = self.ready@;
                let ghost pre_moves_dirs = spec_moved_dirs(orig.take(k), keep);
                self.ready.push(d);
                proof {
                    assert(self.ready@ =~= pre_ready.push(dx));
                    crate::records::lemma_map_values_push(pre_moves_dirs, |d: RangeDir| d.start, dx);
                    assert(old_ready + pre_moves_dirs.push(dx) =~= (old_ready + pre_moves_dirs).push(
                        dx,
                    ));
                }
            }
        }
        proof {
            assert(orig.take(orig.len() as int) =~= orig);
        }
        self.staging = kept;
        proof {
            lemma_kept_dirs(orig, keep);
            lemma_kept_dirs_len(orig, keep);
            lemma_moved_dirs(orig, keep);
            lemma_dirs_view_concat(old_ready, spec_moved_dirs(orig, keep));
            assert forall|i2: int| 0 <= i2 < self.staging@.len() implies slots_distinct(
                (#[trigger] self.staging@[i2]).slots@,
            ) && self.staging@[i2].start % self.slot_range == 0 && self.staging@[i2].start
                + self.slot_range <= u64::MAX by {
                let j = choose|j: int|
                    0 <= j < orig.len() && #[trigger] self.staging@[i2] == #[trigger] orig[j];
            }
        }
        Ok(moves)
    }

    /// Saves one finished slot: stages its cells, and on the trigger slot
    /// commits every other staged range. Returns the file operations that
    /// realize the step on disk, in order. Idempotent in effect: saving the
    /// same slot again with the same record stages the same cells over the
    /// old ones.
    #[verifier::rlimit(60)]
    pub fn save(&mut self, slot: u64, confirmed_block: &CosVersionedConfirmedBlockWithEntries)
        -> (r: Result<Vec<FsOp>, GeyserPluginCosError>)
        requires
            old(self).wf(),
            confirmed_block.transactions@.len() <= u32::MAX,
            spec_range_start(slot, old(self).spec_slot_range()) + old(self).spec_slot_range()
                <= u64::MAX,
        ensures
            final(self).wf(),
            final(self).spec_slot_range() == old(self).spec_slot_range(),
            final(self).spec_commit_slot_delay() == old(self).spec_commit_slot_delay(),
            r matches Ok(plan) ==> {
                let cells = spec_slot_cells(slot, confirmed_block@);
                let range = spec_range_start(slot, old(self).spec_slot_range());
                let staged = spec_stage(old(self).spec_staging(), range, slot, cells);
                let trigger = slot % old(self).spec_slot_range() == old(
                    self,
                ).spec_commit_slot_delay();
                let moves = if trigger {
                    spec_moves_of_order(
                        spec_order_after_stage(old(self).spec_staging_order(), range),
                        range,
                    )
                } else {
                    Seq::<u64>::empty()
                };
                &&& final(self).spec_staging() == (if trigger {
                    spec_commit_staging(staged, range)
                } else {
                    staged
                })
                &&& final(self).spec_ready() == (if trigger {
                    spec_commit_ready(staged, old(self).spec_ready(), range)
                } else {
                    old(self).spec_ready()
                })
                &&& final(self).spec_staging_order() == spec_order_after_save(
                    old(self).spec_staging_order(),
                    old(self).spec_slot_range(),
                    old(self).spec_commit_slot_delay(),
                    slot,
                )
                &&& fsop_views(plan@) == spec_save_plan(
                    slot,
                    old(self).spec_slot_range(),
                    cells,
                    moves,
                )
                &&& fsop_views(plan@) == spec_save_outcome_plan(
                    old(self).spec_staging_order(),
                    old(self).spec_slot_range(),
                    old(self).spec_commit_slot_delay(),
                    slot,
                    cells,
                )
            },
            r is Err ==> final(self).spec_ready() == old(self).spec_ready(),
            r matches Err(e) ==> e is InternalError,
            ready_preserved(old(self).spec_ready(), final(self).spec_ready()),
    {
        let ghost old_self = *old(self);
        let cells = build_slot_cells(slot, confirmed_block)?;
        let ghost cellsv = cell_views(cells@);
        let range_name = format_slot_range(slot, self.slot_range);
        let slot_name = format_slot_single(slot);
        let mut plan: Vec<FsOp> = Vec::new();
        plan.push(
            FsOp::ClearSlotDir {
                range: clone_string(&range_name),
                slot: clone_string(&slot_name),
            },
        );
        proof {
            assert(fsop_views(plan@) =~= seq![
                FsOpV::ClearSlotDir {
                    range: spec_range_dir_name(slot, self.slot_range),
                    slot: spec_slot_dir_name(slot),
                },
            ]);
        }
        let ghost clear_ops = fsop_views(plan@);
        let mut i: usize = 0;
        while i < cells.len()
            invariant
                i <= cells@.len(),
                cellsv == cell_views(cells@),
                range_name@ == spec_range_dir_name(slot, self.slot_range),
                slot_name@ == spec_slot_dir_name(slot),
                clear_ops == seq![
                    FsOpV::ClearSlotDir {
                        range: spec_range_dir_name(slot, self.slot_range),
                        slot: spec_slot_dir_name(slot),
                    },
                ],
                fsop_views(plan@) == clear_ops + spec_write_ops(
                    slot,
                    self.slot_range,
                    cellsv,
                ).take(i as int),
                self.staging@ == old(self).staging@,
                self.ready@ == old(self).ready@,
                self.slot_range == old(self).slot_range,
                self.commit_slot_delay == old(self).commit_slot_delay,
            decreases cells@.len() - i,
        {
            let c = &cells[i];
            let mut file = clone_string(&c.key);
            file.append(".");
            file.append(c.ext.name());
            proof {
                reveal_strlit(".");
                assert(file@ =~= cellsv[i as int].key + seq!['.'] + spec_ext_name(
                    cellsv[i as int].ext,
                ));
            }
            let op = FsOp::WriteCell {
                range: clone_string(&range_name),
                slot: clone_string(&slot_name),
                table: string_of_str(c.table.name()),
                file,
                data: clone_bytes(&c.data),
            };
            proof {
                assert(op@ =~= spec_write_ops(slot, self.slot_range, cellsv)[i as int]);
            }
            let ghost opx = op;
            let ghost pre_plan = plan@;
            plan.push(op);
            proof {
                crate::records::lemma_map_values_push(pre_plan, |o: FsOp| o@, opx);
                assert(fsop_views(plan@) =~= clear_ops + spec_write_ops(
                    slot,
                    self.slot_range,
                    cellsv,
                ).take(i + 1));
            }
            i = i + 1;
        }
        proof {
            assert(spec_write_ops(slot, self.slot_range, cellsv).take(cellsv.len() as int)
                =~= spec_write_ops(slot, self.slot_range, cellsv));
        }
        self.stage_slot(slot, cells);
        let moves = self.commit_to_storage(slot)?;
        proof {
            let range = spec_range_start(slot, old_self.spec_slot_range());
            let order1 = spec_order_after_stage(old_self.spec_staging_order(), range);
            crate::keys::lemma_range_start_properties(slot, old_self.slot_range);
            lemma_moves_of_order_elements(order1, range);
            assert forall|j: int| 0 <= j < moves@.len() implies (#[trigger] moves@[j])
                % self.slot_range == 0 && moves@[j] + self.slot_range <= u64::MAX by {
                let k = choose|k: int| 0 <= k < order1.len() && moves@[j] == order1[k];
                if k < old_self.spec_staging_order().len() {
                    assert(old_self.staging@[k].start == moves@[j]);
                }
            }
        }
        let mut m: usize = 0;
        while m < moves.len()
            invariant
                m <= moves@.len(),
                self.slot_range == old_self.slot_range,
                self.slot_range >= 1,
                forall|j: int|
                    0 <= j < moves@.len() ==> (#[trigger] moves@[j]) % self.slot_range == 0
                        && moves@[j] + self.slot_range <= u64::MAX,
                fsop_views(plan@) == clear_ops + spec_write_ops(slot, self.slot_range, cellsv)
                    + spec_move_ops(self.slot_range, moves@).take(m as int),
            decreases moves@.len() - m,
        {
            let start = moves[m];
            let name = format_slot_range(start, self.slot_range);
            proof {
                assert(spec_range_start(start, self.slot_range) == start);
            }
            let op = FsOp::MoveRange { range: name };
            proof {
                assert(op@ =~= spec_move_ops(self.slot_range, moves@)[m as int]);
            }
            let ghost opx = op;
            let ghost pre_plan = plan@;
            plan.push(op);
            proof {
                crate::records::lemma_map_values_push(pre_plan, |o: FsOp| o@, opx);
                assert(fsop_views(plan@) =~= clear_ops + spec_write_ops(
                    slot,
                    self.slot_range,
                    cellsv,
                ) + spec_move_ops(self.slot_range, moves@).take(m + 1));
            }
            m = m + 1;
        }
        proof {
            assert(spec_move_ops(self.slot_range, moves@).take(moves@.len() as int)
                =~= spec_move_ops(self.slot_range, moves@));
            assert(fsop_views(plan@) =~= spec_save_plan(
                slot,
                old_self.spec_slot_range(),
                cellsv,
                moves@,
            ));
        }
        Ok(plan)
    }
}

/// Clones a string.
fn clone_string(s: &String) -> (r: String)
    ensures
        r@ == s@,
{
    s.clone()
}

/// Builds an owned string from a borrowed one.
fn string_of_str(s: &str) -> (r: String)
    ensures
        r@ == s@,
{
    String::from_str(s)
}

/// Clones a byte vector.
fn clone_bytes(b: &Vec<u8>) -> (r: Vec<u8>)
    ensures
        r@ == b@,
{
    let mut out: Vec<u8> = Vec::new();
    crate::bytes::append_bytes(&mut out, b);
    out
}

/// The write operations of a save plan, one per cell, in cell order.
pub open spec fn spec_write_ops(slot: u64, slot_range: u64, cells: Seq<CellV>) -> Seq<FsOpV> {
    Seq::new(
        cells.len(),
        |i: int|
            FsOpV::WriteCell {
                range: spec_range_dir_name(slot, slot_range),
                slot: spec_slot_dir_name(slot),
                table: spec_table_name(cells[i].table),
                file: cells[i].key + seq!['.'] + spec_ext_name(cells[i].ext),
                data: cells[i].data,
            },
    )
}

/// The relocation operations of a save plan, one per moved range.
pub open spec fn spec_move_ops(slot_range: u64, moves: Seq<u64>) -> Seq<FsOpV> {
    Seq::new(
        moves.len(),
        |i: int| FsOpV::MoveRange { range: spec_range_dir_name(moves[i], slot_range) },
    )
}

/// Everything a save asks of the file layer: clear the slot's directory,
/// write its cells, then relocate whatever ranges the trigger swept.
pub open spec fn spec_save_plan(
    slot: u64,
    slot_range: u64,
    cells: Seq<CellV>,
    moves: Seq<u64>,
) -> Seq<FsOpV> {
    seq![
        FsOpV::ClearSlotDir {
            range: spec_range_dir_name(slot, slot_range),
            slot: spec_slot_dir_name(slot),
        },
    ] + spec_write_ops(slot, slot_range, cells) + spec_move_ops(slot_range, moves)
}

/// The staged order after one save of a slot: staged into its range, then,
/// on the trigger slot, every other staged range relocated.
pub open spec fn spec_order_after_save(order: Seq<u64>, slot_range: u64, delay: u64, slot: u64)
    -> Seq<u64>
    recommends
        slot_range >= 1,
{
    let range = spec_range_start(slot, slot_range);
    let staged = spec_order_after_stage(order, range);
    if slot % slot_range == delay {
        spec_order_after_commit(staged, range)
    } else {
        staged
    }
}

/// The whole plan one save returns, as a function of the staged order and
/// the slot's cells.
pub open spec fn spec_save_outcome_plan(
    order: Seq<u64>,
    slot_range: u64,
    delay: u64,
    slot: u64,
    cells: Seq<CellV>,
) -> Seq<FsOpV>
    recommends
        slot_range >= 1,
{
    let range = spec_range_start(slot, slot_range);
    let moves = if slot % slot_range == delay {
        spec_moves_of_order(spec_order_after_stage(order, range), range)
    } else {
        Seq::<u64>::empty()
    };
    spec_save_plan(slot, slot_range, cells, moves)
}

/// Both trees after one save of a slot's cells: the slot staged into its
/// range, then, on the trigger slot, every other staged range relocated.
pub open spec fn spec_save_model(
    st: Map<u64, Map<u64, Seq<CellV>>>,
    ready: Map<u64, Map<u64, Seq<CellV>>>,
    slot_range: u64,
    delay: u64,
    slot: u64,
    cells: Seq<CellV>,
) -> (Map<u64, Map<u64, Seq<CellV>>>, Map<u64, Map<u64, Seq<CellV>>>)
    recommends
        slot_range >= 1,
{
    let range = spec_range_start(slot, slot_range);
    let staged = spec_stage(st, range, slot, cells);
    if slot % slot_range == delay {
        (spec_commit_staging(staged, range), spec_commit_ready(staged, ready, range))
    } else {
        (staged, ready)
    }
}

/// Saving the same slot twice with identical cells leaves the staging and
/// ready trees exactly as one save leaves them: a replayed save after a
/// crash cannot change or duplicate what was persisted.
pub proof fn lemma_save_idempotent(
    st: Map<u64, Map<u64, Seq<CellV>>>,
    ready: Map<u64, Map<u64, Seq<CellV>>>,
    slot_range: u64,
    delay: u64,
    slot: u64,
    cells: Seq<CellV>,
)
    requires
        slot_range >= 1,
    ensures
        ({
            let once = spec_save_model(st, ready, slot_range, delay, slot, cells);
            let twice = spec_save_model(once.0, once.1, slot_range, delay, slot, cells);
            twice == once
        }),
{
    let range = spec_range_start(slot, slot_range);
    let staged = spec_stage(st, range, slot, cells);
    let once = spec_save_model(st, ready, slot_range, delay, slot, cells);
    let staged2 = spec_stage(once.0, range, slot, cells);
    if slot % slot_range == delay {
        assert(staged.contains_key(range));
        assert(once.0.contains_key(range));
        assert(once.0[range] == staged[range]);
        assert(once.0[range].insert(slot, cells) =~= once.0[range]);
        assert(staged2 =~= once.0);
        assert(spec_commit_staging(staged2, range) =~= once.0);
        assert(staged2.remove(range) =~= Map::<u64, Map<u64, Seq<CellV>>>::empty());
        assert(spec_commit_ready(staged2, once.1, range) =~= once.1);
    } else {
        assert(once.0[range].insert(slot, cells) =~= once.0[range]);
        assert(staged2 =~= once.0);
    }
}

/// On a trigger slot, the commit relocates every staged range except the
/// one containing that slot: each such range appears in the ready tree with
/// exactly its staged content and disappears from staging; nothing else in
/// the ready tree changes, and staging retains at most the current range.
pub proof fn lemma_commit_relocates_all_but_current(
    st: Map<u64, Map<u64, Seq<CellV>>>,
    ready: Map<u64, Map<u64, Seq<CellV>>>,
    keep: u64,
)
    ensures
        forall|x: u64|
            #[trigger] st.contains_key(x) && x != keep ==> spec_commit_ready(
                st,
                ready,
                keep,
            ).contains_key(x) && spec_commit_ready(st, ready, keep)[x] == st[x],
        forall|x: u64|
            #[trigger] st.contains_key(x) && x != keep ==> !spec_commit_staging(
                st,
                keep,
            ).contains_key(x),
        forall|x: u64| #[trigger] spec_commit_staging(st, keep).contains_key(x) ==> x == keep,
        forall|x: u64|
            #[trigger] ready.contains_key(x) && !(st.contains_key(x) && x != keep)
                ==> spec_commit_ready(st, ready, keep).contains_key(x) && spec_commit_ready(
                st,
                ready,
                keep,
            )[x] == ready[x],
{
}

} // verus!
