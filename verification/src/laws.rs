//! The registry's guarantees, stated and proved once and for all over the
//! mathematical model: a single active slot, cancellation beating stale
//! timers, eviction on timeout, protection of the active entry against
//! removal and against incomplete scans, and idempotence of the merge.

use vstd::prelude::*;

use crate::registry::activate_spec;
use crate::registry::cleanup_spec;
use crate::registry::entry_idx;
use crate::registry::entry_leq;
use crate::registry::has_entry;
use crate::registry::has_slot;
use crate::registry::lemma_entry_idx;
use crate::registry::lemma_entry_idx_at;
use crate::registry::lemma_entry_idx_pointwise;
use crate::registry::lemma_entry_leq_order;
use crate::registry::lemma_filter_keyed;
use crate::registry::lemma_idx_of_same;
use crate::registry::lemma_merge_fields;
use crate::registry::lemma_permutation_unique_ids;
use crate::registry::lemma_slot_idx;
use crate::registry::lemma_wf_activate;
use crate::registry::lemma_wf_cleanup;
use crate::registry::lemma_wf_merge;
use crate::registry::lemma_wf_merge_one;
use crate::registry::lemma_wf_reconcile;
use crate::registry::lemma_wf_retain;
use crate::registry::lemma_wf_single_active;
use crate::registry::merge_one_spec;
use crate::registry::merge_spec;
use crate::registry::reconcile_spec;
use crate::registry::remove_spec;
use crate::registry::retain_keep;
use crate::registry::retain_spec;
use crate::registry::scan_has_id;
use crate::registry::slot_idx;
use crate::registry::sort_spec;
use crate::registry::wf;
use crate::registry::EntryV;
use crate::registry::RegistryV;
use crate::registry::ScanV;
use crate::registry::SlotState;
use crate::registry::SlotV;
use crate::sorting::lemma_insertion_sort_ensures;
use crate::sorting::lemma_insertion_sort_of_sorted;

verus! {

/// For any sequence of activations on a well-formed registry, at most one
/// slot is active after each: activation preserves well-formedness, and a
/// well-formed registry has at most one active slot.
pub proof fn lemma_single_active(r: RegistryV, id: Seq<char>, now: int)
    requires
        wf(r),
    ensures
        wf(activate_spec(r, id, now)),
        forall|i: int, j: int|
            0 <= i < activate_spec(r, id, now).slots.len() && 0 <= j < activate_spec(
                r,
                id,
                now,
            ).slots.len() && (#[trigger] activate_spec(r, id, now).slots[i]).state
                == SlotState::Active && (#[trigger] activate_spec(r, id, now).slots[j]).state
                == SlotState::Active ==> i == j,
{
    lemma_wf_activate(r, id, now);
    lemma_wf_single_active(activate_spec(r, id, now));
}

/// Activating a cached slot cancels its pending eviction and keeps its
/// handle; the stale eviction action, firing afterwards, changes nothing,
/// because the slot is no longer cached.
pub proof fn lemma_cancel_on_reactivate(r: RegistryV, id: Seq<char>, now: int)
    requires
        wf(r),
        has_slot(r.slots, id),
        r.slots[slot_idx(r.slots, id)].state == SlotState::Cached,
    ensures
        ({
            let r2 = activate_spec(r, id, now);
            let si = slot_idx(r2.slots, id);
            &&& 0 <= si < r2.slots.len()
            &&& r2.slots[si].state == SlotState::Active
            &&& r2.slots[si].project is Some
            &&& r2.slots[si].cleanup_at is None
            &&& cleanup_spec(r2, id) == r2
        }),
{
    lemma_wf_activate(r, id, now);
    let r2 = activate_spec(r, id, now);
    assert(r2.active_slot_id == Some(id));
    assert(has_entry(r2.worktrees, id));
    let k = choose|k: int| 0 <= k < r2.worktrees.len() && r2.worktrees[k].slot_id == id;
    assert(has_slot(r2.slots, r2.worktrees[k].slot_id));
    lemma_slot_idx(r2.slots, id);
    let si = slot_idx(r2.slots, id);
    assert(slot_wf_of(r2, si));
    assert(cleanup_spec(r2, id) == r2);
}

/// The slot at a valid index satisfies the per-slot invariant; spelled out
/// so the laws can refer to it.
pub open spec fn slot_wf_of(r: RegistryV, i: int) -> bool {
    crate::registry::slot_wf(r.active_slot_id, r.slots[i])
}

/// A fired eviction on a slot still cached unloads it: the handle is
/// released and no eviction stays pending.
pub proof fn lemma_timeout_eviction(r: RegistryV, id: Seq<char>)
    requires
        wf(r),
        has_slot(r.slots, id),
        r.slots[slot_idx(r.slots, id)].state == SlotState::Cached,
    ensures
        ({
            let r2 = cleanup_spec(r, id);
            let si = slot_idx(r2.slots, id);
            &&& wf(r2)
            &&& 0 <= si < r2.slots.len()
            &&& r2.slots[si].state == SlotState::Unloaded
            &&& r2.slots[si].project is None
            &&& r2.slots[si].cleanup_at is None
        }),
{
    lemma_wf_cleanup(r, id);
    lemma_slot_idx(r.slots, id);
    let r2 = cleanup_spec(r, id);
    assert forall|i: int| 0 <= i < r2.slots.len() implies (#[trigger] r2.slots[i]).slot_id
        == r.slots[i].slot_id by {}
    lemma_idx_of_same(r.slots, r2.slots, crate::registry::slot_id_is(id));
    lemma_slot_idx(r2.slots, id);
}

/// Removing the active identity leaves the registry exactly as it was.
pub proof fn lemma_protected_active_removal(r: RegistryV, id: Seq<char>)
    requires
        r.active_slot_id == Some(id),
    ensures
        remove_spec(r, id) == r,
{
}

/// Reconciliation never deletes the active entry, whatever the scan
/// reports — even nothing at all.
pub proof fn lemma_active_survives_scan(r: RegistryV, a: Seq<char>, scans: Seq<ScanV>, now: int)
    requires
        wf(r),
        r.active_slot_id == Some(a),
    ensures
        ({
            let r2 = reconcile_spec(r, scans, now);
            &&& wf(r2)
            &&& r2.active_slot_id == Some(a)
            &&& has_entry(r2.worktrees, a)
        }),
{
    lemma_wf_reconcile(r, scans, now);
    lemma_merge_fields(r, scans, now);
}

/// Reconciling with an empty scan leaves exactly the active entry.
pub proof fn lemma_active_survives_empty_scan(r: RegistryV, a: Seq<char>, now: int)
    requires
        wf(r),
        r.active_slot_id == Some(a),
    ensures
        ({
            let r2 = reconcile_spec(r, Seq::<ScanV>::empty(), now);
            &&& wf(r2)
            &&& r2.active_slot_id == Some(a)
            &&& r2.worktrees.len() == 1
            &&& r2.worktrees[0].slot_id == a
        }),
{
    let scans = Seq::<ScanV>::empty();
    lemma_wf_reconcile(r, scans, now);
    lemma_merge_fields(r, scans, now);
    let rm = merge_spec(r, scans, now);
    assert(rm == r);
    let keep = |e: EntryV| retain_keep(r.active_slot_id, scans, e.slot_id);
    let kept = r.worktrees.filter(keep);
    lemma_filter_keyed(r.worktrees, |e: EntryV| e.slot_id, keep);
    assert(has_entry(r.worktrees, a));
    let k = choose|k: int| 0 <= k < r.worktrees.len() && r.worktrees[k].slot_id == a;
    assert(keep(r.worktrees[k]));
    assert(r.worktrees.contains(r.worktrees[k]));
    assert(kept.contains(r.worktrees[k]));
    assert(kept.len() >= 1);
    assert forall|i: int| 0 <= i < kept.len() implies (#[trigger] kept[i]).slot_id == a by {
        assert(kept.contains(kept[i]));
        assert(keep(kept[i]));
        assert(!scan_has_id(scans, kept[i].slot_id));
    }
    if kept.len() >= 2 {
        assert(kept[0].slot_id == kept[1].slot_id);
        assert(false);
    }
    let rr = retain_spec(rm, scans);
    assert(rr.worktrees == kept);
    lemma_wf_retain(rm, scans);
    let leq = entry_leq(rr.active_slot_id);
    lemma_entry_leq_order(rr.active_slot_id);
    lemma_insertion_sort_ensures(rr.worktrees, leq);
    let r2 = reconcile_spec(r, scans, now);
    assert(r2.worktrees.len() == 1);
    assert(r2.worktrees.to_multiset() == kept.to_multiset());
    lemma_permutation_unique_ids(kept, r2.worktrees);
    assert(has_entry(kept, a));
    assert(has_entry(r2.worktrees, a));
    let m = choose|m: int| 0 <= m < r2.worktrees.len() && r2.worktrees[m].slot_id == a;
    assert(m == 0);
}

// ---------------------------------------------------------------------------
// Idempotence of reconciliation
// ---------------------------------------------------------------------------

/// The position of the last report of `id` in the scan, or -1 when the
/// scan does not report it.
pub open spec fn last_scan_idx(scans: Seq<ScanV>, id: Seq<char>) -> int
    decreases scans.len(),
{
    if scans.len() == 0 {
        -1
    } else if scans.last().worktree_path == id {
        scans.len() - 1
    } else {
        last_scan_idx(scans.drop_last(), id)
    }
}

proof fn lemma_last_scan_idx(scans: Seq<ScanV>, id: Seq<char>)
    ensures
        scan_has_id(scans, id) <==> last_scan_idx(scans, id) >= 0,
        last_scan_idx(scans, id) >= 0 ==> last_scan_idx(scans, id) < scans.len() && scans[
            last_scan_idx(scans, id)
        ].worktree_path == id && forall|k: int|
            last_scan_idx(scans, id) < k < scans.len() ==> (#[trigger] scans[k]).worktree_path
                != id,
    decreases scans.len(),
{
    if scans.len() != 0 {
        let pre = scans.drop_last();
        lemma_last_scan_idx(pre, id);
        if scans.last().worktree_path == id {
            assert(scans[scans.len() - 1].worktree_path == id);
        } else {
            assert forall|k: int| 0 <= k < pre.len() implies #[trigger] pre[k] == scans[k] by {}
            if scan_has_id(scans, id) {
                let w = choose|w: int| 0 <= w < scans.len() && scans[w].worktree_path == id;
                assert(w < scans.len() - 1);
                assert(pre[w] == scans[w]);
                assert(scan_has_id(pre, id));
            }
            if scan_has_id(pre, id) {
                let w = choose|w: int| 0 <= w < pre.len() && pre[w].worktree_path == id;
                assert(scans[w].worktree_path == id);
            }
            let l = last_scan_idx(pre, id);
            if l >= 0 {
                assert(scans[l] == pre[l]);
                assert forall|k: int| l < k < scans.len() implies (
                #[trigger] scans[k]).worktree_path != id by {
                    if k < scans.len() - 1 {
                        assert(pre[k] == scans[k]);
                    }
                }
            }
        }
    }
}

/// The last report is determined by any report after which the path no
/// longer occurs.
proof fn lemma_last_scan_idx_at(scans: Seq<ScanV>, id: Seq<char>, i: int)
    requires
        0 <= i < scans.len(),
        scans[i].worktree_path == id,
        forall|k: int| i < k < scans.len() ==> (#[trigger] scans[k]).worktree_path != id,
    ensures
        last_scan_idx(scans, id) == i,
    decreases scans.len(),
{
    if i == scans.len() - 1 {
    } else {
        assert(scans.last().worktree_path != id);
        let pre = scans.drop_last();
        assert(pre[i] == scans[i]);
        assert forall|k: int| i < k < pre.len() implies (#[trigger] pre[k]).worktree_path
            != id by {
            assert(pre[k] == scans[k]);
        }
        lemma_last_scan_idx_at(pre, id, i);
    }
}

/// Dropping the first report shifts the last report's position by one,
/// when the path still occurs afterwards.
proof fn lemma_last_scan_idx_shift(scans: Seq<ScanV>, id: Seq<char>)
    requires
        scans.len() > 0,
        scan_has_id(scans.drop_first(), id),
    ensures
        last_scan_idx(scans, id) == 1 + last_scan_idx(scans.drop_first(), id),
        scans[last_scan_idx(scans, id)] == scans.drop_first()[last_scan_idx(
            scans.drop_first(),
            id,
        )],
{
    let rest = scans.drop_first();
    lemma_last_scan_idx(rest, id);
    let l = last_scan_idx(rest, id);
    assert(scans[l + 1] == rest[l]);
    assert forall|k: int| l + 1 < k < scans.len() implies (#[trigger] scans[k]).worktree_path
        != id by {
        assert(scans[k] == rest[k - 1]);
    }
    lemma_last_scan_idx_at(scans, id, l + 1);
}

/// What merging a scan settles for a reported identity: some entry is
/// registered under it, and every entry under it carries the identity as
/// its path and the branch label of the scan's last report of it.
pub open spec fn entry_reported(es: Seq<EntryV>, scans: Seq<ScanV>, id: Seq<char>) -> bool {
    &&& has_entry(es, id)
    &&& forall|i: int|
        0 <= i < es.len() && (#[trigger] es[i]).slot_id == id ==> es[i].worktree_path == id
            && es[i].branch_name == scans[last_scan_idx(scans, id)].branch_name
}

/// Merging scans that all report paths other than `id` does not move or
/// change the entry registered under `id`.
proof fn lemma_merge_other_ids(r: RegistryV, scans: Seq<ScanV>, now: int, id: Seq<char>)
    requires
        forall|k: int| 0 <= k < scans.len() ==> (#[trigger] scans[k]).worktree_path != id,
    ensures
        entry_idx(merge_spec(r, scans, now).worktrees, id) == entry_idx(r.worktrees, id),
        entry_idx(r.worktrees, id) >= 0 ==> entry_idx(r.worktrees, id)
            < merge_spec(r, scans, now).worktrees.len() && merge_spec(
            r,
            scans,
            now,
        ).worktrees[entry_idx(r.worktrees, id)] == r.worktrees[entry_idx(r.worktrees, id)],
    decreases scans.len(),
{
    lemma_entry_idx(r.worktrees, id);
    if scans.len() == 0 {
        assert(merge_spec(r, scans, now) == r);
    } else {
        let sc = scans[0];
        assert(scans[0].worktree_path != id);
        let m1 = merge_one_spec(r, sc, now);
        lemma_entry_idx(r.worktrees, sc.worktree_path);
        let ei = entry_idx(r.worktrees, sc.worktree_path);
        assert(entry_idx(m1.worktrees, id) == entry_idx(r.worktrees, id)) by {
            lemma_entry_idx(r.worktrees, id);
            lemma_entry_idx(r.worktrees, sc.worktree_path);
            if ei >= 0 {
                assert(m1.worktrees.len() == r.worktrees.len());
                assert forall|i: int| 0 <= i < r.worktrees.len() implies (
                #[trigger] m1.worktrees[i]).slot_id == (#[trigger] r.worktrees[i]).slot_id by {}
                lemma_entry_idx_pointwise(r.worktrees, m1.worktrees, id);
                assert(entry_idx(m1.worktrees, id) == entry_idx(r.worktrees, id));
            } else {
                let idx = entry_idx(r.worktrees, id);
                if idx >= 0 {
                    assert forall|k: int| 0 <= k < idx implies (#[trigger] m1.worktrees[k]).slot_id
                        != id by {
                        assert(m1.worktrees[k] == r.worktrees[k]);
                    }
                    assert(m1.worktrees[idx] == r.worktrees[idx]);
                    lemma_entry_idx_at(m1.worktrees, id, idx);
                    assert(entry_idx(m1.worktrees, id) == entry_idx(r.worktrees, id));
                } else {
                    assert(idx == -1);
                    assert forall|k: int| 0 <= k < m1.worktrees.len() implies (
                    #[trigger] m1.worktrees[k]).slot_id != id by {
                        if k < r.worktrees.len() {
                            assert(m1.worktrees[k] == r.worktrees[k]);
                        }
                    }
                    lemma_entry_idx_at(m1.worktrees, id, m1.worktrees.len() as int);
                    assert(entry_idx(m1.worktrees, id) == entry_idx(r.worktrees, id));
                }
            }
        }
        assert(entry_idx(r.worktrees, id) >= 0 ==> entry_idx(r.worktrees, id)
            < m1.worktrees.len() && m1.worktrees[entry_idx(r.worktrees, id)]
            == r.worktrees[entry_idx(r.worktrees, id)]) by {
            lemma_entry_idx(r.worktrees, id);
            lemma_entry_idx(r.worktrees, sc.worktree_path);
            if entry_idx(r.worktrees, id) >= 0 {
                let oi = entry_idx(r.worktrees, id);
                if ei >= 0 {
                    assert(r.worktrees[oi].slot_id == id);
                    assert(r.worktrees[ei].slot_id == sc.worktree_path);
                    assert(oi != ei);
                    assert(m1.worktrees[oi] == r.worktrees[oi]);
                } else {
                    assert(m1.worktrees[oi] == r.worktrees[oi]);
                }
            }
        }
        assert forall|k: int| 0 <= k < scans.drop_first().len() implies (#[trigger] scans.drop_first()[k]).worktree_path
            != id by {
            assert(scans.drop_first()[k] == scans[k + 1]);
        }
        lemma_merge_other_ids(m1, scans.drop_first(), now, id);
        assert(merge_spec(r, scans, now) == merge_spec(m1, scans.drop_first(), now));
        assert(entry_idx(merge_spec(m1, scans.drop_first(), now).worktrees, id) == entry_idx(
            m1.worktrees,
            id,
        ));
    }
}

/// After merging a scan into a well-formed registry, every reported
/// identity is settled to its last reported path and branch label.
proof fn lemma_merge_reports(r: RegistryV, scans: Seq<ScanV>, now: int)
    requires
        wf(r),
    ensures
        forall|id: Seq<char>|
            scan_has_id(scans, id) ==> #[trigger] entry_reported(
                merge_spec(r, scans, now).worktrees,
                scans,
                id,
            ),
    decreases scans.len(),
{
    if scans.len() != 0 {
        let sc = scans[0];
        let rest = scans.drop_first();
        let m1 = merge_one_spec(r, sc, now);
        lemma_wf_merge_one(r, sc, now);
        lemma_merge_reports(m1, rest, now);
        let m = merge_spec(m1, rest, now);
        assert(merge_spec(r, scans, now) == m);
        lemma_wf_merge(r, scans, now);
        assert forall|id: Seq<char>| scan_has_id(scans, id) implies #[trigger] entry_reported(
            m.worktrees,
            scans,
            id,
        ) by {
            if scan_has_id(rest, id) {
                assert(entry_reported(m.worktrees, rest, id));
                lemma_last_scan_idx_shift(scans, id);
                assert(scans[last_scan_idx(scans, id)].branch_name == rest[last_scan_idx(
                    rest,
                    id,
                )].branch_name);
            } else {
                // The identity is reported exactly once, first.
                let w = choose|w: int| 0 <= w < scans.len() && scans[w].worktree_path == id;
                if w != 0 {
                    assert(rest[w - 1] == scans[w]);
                    assert(scan_has_id(rest, id));
                }
                assert(sc.worktree_path == id);
                assert forall|k: int| 0 < k < scans.len() implies (
                #[trigger] scans[k]).worktree_path != id by {
                    if scans[k].worktree_path == id {
                        assert(rest[k - 1] == scans[k]);
                        assert(scan_has_id(rest, id));
                    }
                }
                lemma_last_scan_idx_at(scans, id, 0);
                // Merging the first report settles the entry ...
                lemma_entry_idx(r.worktrees, id);
                lemma_entry_idx(m1.worktrees, id);
                let ei1 = entry_idx(m1.worktrees, id);
                assert(ei1 >= 0 && m1.worktrees[ei1].slot_id == id && m1.worktrees[
                    ei1
                ].worktree_path == id && m1.worktrees[ei1].branch_name == sc.branch_name) by {
                    let ei = entry_idx(r.worktrees, id);
                    if ei >= 0 {
                        assert(m1.worktrees.len() == r.worktrees.len());
                        lemma_entry_idx_pointwise(r.worktrees, m1.worktrees, id);
                    } else {
                        assert forall|k: int| 0 <= k < r.worktrees.len() implies (
                        #[trigger] m1.worktrees[k]).slot_id != id by {
                            assert(m1.worktrees[k] == r.worktrees[k]);
                        }
                        lemma_entry_idx_at(m1.worktrees, id, r.worktrees.len() as int);
                    }
                }
                // ... and the remaining reports, all of other paths, do not
                // touch it.
                assert forall|k: int| 0 <= k < rest.len() implies (
                #[trigger] rest[k]).worktree_path != id by {
                    assert(rest[k] == scans[k + 1]);
                }
                lemma_merge_other_ids(m1, rest, now, id);
                lemma_entry_idx(m.worktrees, id);
                let em = entry_idx(m.worktrees, id);
                assert(em == ei1);
                assert(m.worktrees[em] == m1.worktrees[ei1]);
                assert(has_entry(m.worktrees, id));
                assert forall|i: int|
                    0 <= i < m.worktrees.len() && (#[trigger] m.worktrees[i]).slot_id
                        == id implies m.worktrees[i].worktree_path == id
                    && m.worktrees[i].branch_name == scans[last_scan_idx(
                    scans,
                    id,
                )].branch_name by {
                    if i != em {
                        if em < i {
                            assert(m.worktrees[em].slot_id != m.worktrees[i].slot_id);
                        } else {
                            assert(m.worktrees[i].slot_id != m.worktrees[em].slot_id);
                        }
                        assert(false);
                    }
                }
            }
        }
    }
}

/// The relation a repeated merge maintains against the already reconciled
/// state `r1`: everything agrees, except that entries the remaining scan
/// still reports may for the moment carry an older path or branch label —
/// which the scan's own last report will set back.
pub open spec fn merge_back_inv(x: RegistryV, r1: RegistryV, scans: Seq<ScanV>) -> bool {
    &&& x.repo_identity_path == r1.repo_identity_path
    &&& x.repo_root_path == r1.repo_root_path
    &&& x.is_git_repo == r1.is_git_repo
    &&& x.slots == r1.slots
    &&& x.active_slot_id == r1.active_slot_id
    &&& x.worktrees.len() == r1.worktrees.len()
    &&& forall|i: int, j: int|
        0 <= i < j < x.worktrees.len() ==> (#[trigger] x.worktrees[i]).slot_id
            != (#[trigger] x.worktrees[j]).slot_id
    &&& forall|i: int|
        0 <= i < x.worktrees.len() ==> (#[trigger] x.worktrees[i]).slot_id
            == (#[trigger] r1.worktrees[i]).slot_id
    &&& forall|i: int|
        0 <= i < x.worktrees.len() && !scan_has_id(scans, (#[trigger] x.worktrees[i]).slot_id)
            ==> x.worktrees[i] == r1.worktrees[i]
    &&& forall|i: int|
        0 <= i < x.worktrees.len() && scan_has_id(scans, (#[trigger] x.worktrees[i]).slot_id)
            ==> x.worktrees[i].last_accessed == r1.worktrees[i].last_accessed
            && x.worktrees[i].agent_chat_count == r1.worktrees[i].agent_chat_count
    &&& forall|i: int|
        0 <= i < r1.worktrees.len() && scan_has_id(scans, (#[trigger] r1.worktrees[i]).slot_id)
            ==> r1.worktrees[i].worktree_path == r1.worktrees[i].slot_id
            && r1.worktrees[i].branch_name == scans[last_scan_idx(
            scans,
            r1.worktrees[i].slot_id,
        )].branch_name
    &&& forall|k: int|
        0 <= k < scans.len() ==> has_entry(x.worktrees, (#[trigger] scans[k]).worktree_path)
}

/// Replaying a scan against a state that already settled it brings every
/// touched entry back to where it was: the merge restores `r1` exactly.
proof fn lemma_merge_restores(x: RegistryV, r1: RegistryV, scans: Seq<ScanV>, now2: int)
    requires
        merge_back_inv(x, r1, scans),
    ensures
        merge_spec(x, scans, now2) == r1,
    decreases scans.len(),
{
    if scans.len() == 0 {
        assert forall|i: int| 0 <= i < x.worktrees.len() implies #[trigger] x.worktrees[i]
            == r1.worktrees[i] by {
            assert(!scan_has_id(scans, x.worktrees[i].slot_id));
        }
        assert(x.worktrees =~= r1.worktrees);
        assert(x =~= r1);
    } else {
        let sc = scans[0];
        let id0 = sc.worktree_path;
        let rest = scans.drop_first();
        assert(scans[0].worktree_path == id0);
        assert(scan_has_id(scans, id0));
        assert(has_entry(x.worktrees, id0));
        lemma_entry_idx(x.worktrees, id0);
        let ei = entry_idx(x.worktrees, id0);
        assert(ei >= 0);
        let x1 = merge_one_spec(x, sc, now2);
        assert(x1.worktrees.len() == x.worktrees.len());
        assert forall|k: int| 0 <= k < rest.len() implies #[trigger] rest[k] == scans[k + 1] by {}
        // Re-establish the relation for the remaining reports.
        assert(merge_back_inv(x1, r1, rest)) by {
            assert forall|i: int|
                0 <= i < x1.worktrees.len() && !scan_has_id(
                    rest,
                    (#[trigger] x1.worktrees[i]).slot_id,
                ) implies x1.worktrees[i] == r1.worktrees[i] by {
                let idi = x1.worktrees[i].slot_id;
                assert(idi == x.worktrees[i].slot_id);
                if !scan_has_id(scans, idi) {
                    assert(idi != id0);
                    assert(x.worktrees[ei].slot_id == id0);
                    assert(i != ei);
                    assert(x1.worktrees[i] == x.worktrees[i]);
                } else {
                    // Reported in the scan but not after its head: this is
                    // the head's own identity, just rewritten.
                    let w = choose|w: int| 0 <= w < scans.len() && scans[w].worktree_path == idi;
                    if w != 0 {
                        assert(rest[w - 1] == scans[w]);
                        assert(scan_has_id(rest, idi));
                    }
                    assert(idi == id0);
                    assert(i == ei);
                    assert forall|k: int| 0 < k < scans.len() implies (
                    #[trigger] scans[k]).worktree_path != id0 by {
                        if scans[k].worktree_path == id0 {
                            assert(rest[k - 1] == scans[k]);
                            assert(scan_has_id(rest, id0));
                        }
                    }
                    lemma_last_scan_idx_at(scans, id0, 0);
                    assert(r1.worktrees[i].slot_id == id0);
                    assert(r1.worktrees[i].worktree_path == id0);
                    assert(r1.worktrees[i].branch_name == sc.branch_name);
                    assert(x1.worktrees[i].worktree_path == id0);
                    assert(x1.worktrees[i].branch_name == sc.branch_name);
                    assert(x1.worktrees[i].last_accessed == r1.worktrees[i].last_accessed);
                    assert(x1.worktrees[i].agent_chat_count == r1.worktrees[i].agent_chat_count);
                    assert(x1.worktrees[i] =~= r1.worktrees[i]);
                }
            }
            assert forall|i: int|
                0 <= i < x1.worktrees.len() && scan_has_id(
                    rest,
                    (#[trigger] x1.worktrees[i]).slot_id,
                ) implies x1.worktrees[i].last_accessed == r1.worktrees[i].last_accessed
                && x1.worktrees[i].agent_chat_count == r1.worktrees[i].agent_chat_count by {
                let idi = x1.worktrees[i].slot_id;
                let w = choose|w: int| 0 <= w < rest.len() && rest[w].worktree_path == idi;
                assert(scans[w + 1] == rest[w]);
                assert(scan_has_id(scans, idi));
            }
            assert forall|i: int|
                0 <= i < r1.worktrees.len() && scan_has_id(
                    rest,
                    (#[trigger] r1.worktrees[i]).slot_id,
                ) implies r1.worktrees[i].worktree_path == r1.worktrees[i].slot_id
                && r1.worktrees[i].branch_name == rest[last_scan_idx(
                rest,
                r1.worktrees[i].slot_id,
            )].branch_name by {
                let idi = r1.worktrees[i].slot_id;
                let w = choose|w: int| 0 <= w < rest.len() && rest[w].worktree_path == idi;
                assert(scans[w + 1] == rest[w]);
                assert(scan_has_id(scans, idi));
                lemma_last_scan_idx_shift(scans, idi);
            }
            assert forall|k: int| 0 <= k < rest.len() implies has_entry(
                x1.worktrees,
                (#[trigger] rest[k]).worktree_path,
            ) by {
                assert(has_entry(x.worktrees, scans[k + 1].worktree_path));
                let w = choose|w: int|
                    0 <= w < x.worktrees.len() && x.worktrees[w].slot_id
                        == rest[k].worktree_path;
                assert(x1.worktrees[w].slot_id == rest[k].worktree_path);
            }
        }
        lemma_merge_restores(x1, r1, rest, now2);
        assert(merge_spec(x, scans, now2) == merge_spec(x1, rest, now2));
    }
}

/// Filtering with a predicate every element satisfies changes nothing.
proof fn lemma_filter_all_entries(s: Seq<EntryV>, p: spec_fn(EntryV) -> bool)
    requires
        forall|i: int| 0 <= i < s.len() ==> p(#[trigger] s[i]),
    ensures
        s.filter(p) == s,
    decreases s.len(),
{
    reveal(Seq::filter);
    if s.len() != 0 {
        assert forall|i: int| 0 <= i < s.drop_last().len() implies p(
            #[trigger] s.drop_last()[i],
        ) by {
            assert(s.drop_last()[i] == s[i]);
        }
        lemma_filter_all_entries(s.drop_last(), p);
        assert(s.drop_last().push(s.last()) =~= s);
    }
}

/// Filtering with a predicate every element satisfies changes nothing.
proof fn lemma_filter_all_slots(s: Seq<SlotV>, p: spec_fn(SlotV) -> bool)
    requires
        forall|i: int| 0 <= i < s.len() ==> p(#[trigger] s[i]),
    ensures
        s.filter(p) == s,
    decreases s.len(),
{
    reveal(Seq::filter);
    if s.len() != 0 {
        assert forall|i: int| 0 <= i < s.drop_last().len() implies p(
            #[trigger] s.drop_last()[i],
        ) by {
            assert(s.drop_last()[i] == s[i]);
        }
        lemma_filter_all_slots(s.drop_last(), p);
        assert(s.drop_last().push(s.last()) =~= s);
    }
}

/// Reconciling twice in a row with one and the same scan produces exactly
/// the state the first reconciliation produced, whenever the second runs.
pub proof fn lemma_reconcile_idempotent(r: RegistryV, scans: Seq<ScanV>, now: int, now2: int)
    requires
        wf(r),
    ensures
        reconcile_spec(reconcile_spec(r, scans, now), scans, now2) == reconcile_spec(
            r,
            scans,
            now,
        ),
{
    let rm = merge_spec(r, scans, now);
    let rr = retain_spec(rm, scans);
    let r1 = sort_spec(rr);
    assert(reconcile_spec(r, scans, now) == r1);
    lemma_wf_merge(r, scans, now);
    lemma_wf_retain(rm, scans);
    lemma_wf_reconcile(r, scans, now);
    lemma_merge_fields(r, scans, now);
    lemma_merge_reports(r, scans, now);

    let leq = entry_leq(rr.active_slot_id);
    lemma_entry_leq_order(rr.active_slot_id);
    lemma_insertion_sort_ensures(rr.worktrees, leq);
    lemma_permutation_unique_ids(rr.worktrees, r1.worktrees);

    let pe = |e: EntryV| retain_keep(rm.active_slot_id, scans, e.slot_id);
    let ps = |s: SlotV| retain_keep(rm.active_slot_id, scans, s.slot_id);
    lemma_filter_keyed(rm.worktrees, |e: EntryV| e.slot_id, pe);
    lemma_filter_keyed(rm.slots, |s: SlotV| s.slot_id, ps);

    // Every entry of the reconciled registry is an entry of the merged
    // one, with its identity kept by the scan.
    assert forall|i: int| 0 <= i < r1.worktrees.len() implies rm.worktrees.contains(
        #[trigger] r1.worktrees[i],
    ) && pe(r1.worktrees[i]) by {
        broadcast use vstd::seq_lib::group_to_multiset_ensures;

        assert(r1.worktrees.contains(r1.worktrees[i]));
        assert(r1.worktrees.to_multiset().count(r1.worktrees[i]) > 0);
        assert(rr.worktrees.to_multiset().count(r1.worktrees[i]) > 0);
        assert(rr.worktrees.contains(r1.worktrees[i]));
    }

    // The second merge finds every reported identity settled and restores
    // the reconciled state exactly.
    assert(merge_back_inv(r1, r1, scans)) by {
        assert forall|i: int|
            0 <= i < r1.worktrees.len() && scan_has_id(
                scans,
                (#[trigger] r1.worktrees[i]).slot_id,
            ) implies r1.worktrees[i].worktree_path == r1.worktrees[i].slot_id
            && r1.worktrees[i].branch_name == scans[last_scan_idx(
            scans,
            r1.worktrees[i].slot_id,
        )].branch_name by {
            let idi = r1.worktrees[i].slot_id;
            assert(entry_reported(rm.worktrees, scans, idi));
            let m = choose|m: int|
                0 <= m < rm.worktrees.len() && rm.worktrees[m] == r1.worktrees[i];
            assert(rm.worktrees[m].slot_id == idi);
        }
        assert forall|k: int| 0 <= k < scans.len() implies has_entry(
            r1.worktrees,
            (#[trigger] scans[k]).worktree_path,
        ) by {
            broadcast use vstd::seq_lib::group_to_multiset_ensures;

            let id = scans[k].worktree_path;
            assert(scan_has_id(scans, id));
            assert(entry_reported(rm.worktrees, scans, id));
            let e = choose|j: int| 0 <= j < rm.worktrees.len() && rm.worktrees[j].slot_id == id;
            assert(pe(rm.worktrees[e]));
            assert(rm.worktrees.contains(rm.worktrees[e]));
            assert(rr.worktrees.contains(rm.worktrees[e]));
            assert(rr.worktrees.to_multiset().count(rm.worktrees[e]) > 0);
            assert(r1.worktrees.to_multiset().count(rm.worktrees[e]) > 0);
            assert(r1.worktrees.contains(rm.worktrees[e]));
            let j1 = choose|j1: int|
                0 <= j1 < r1.worktrees.len() && r1.worktrees[j1] == rm.worktrees[e];
            assert(r1.worktrees[j1].slot_id == id);
        }
    }
    lemma_merge_restores(r1, r1, scans, now2);

    // The second retain keeps everything.
    assert(r1.active_slot_id == rm.active_slot_id);
    let pe2 = |e: EntryV| retain_keep(r1.active_slot_id, scans, e.slot_id);
    let ps2 = |s: SlotV| retain_keep(r1.active_slot_id, scans, s.slot_id);
    assert forall|i: int| 0 <= i < r1.worktrees.len() implies pe2(#[trigger] r1.worktrees[i]) by {
        assert(pe(r1.worktrees[i]));
    }
    lemma_filter_all_entries(r1.worktrees, pe2);
    assert forall|i: int| 0 <= i < r1.slots.len() implies ps2(#[trigger] r1.slots[i]) by {
        assert(r1.slots[i] == rr.slots[i]);
        assert(rr.slots.contains(rr.slots[i]));
        assert(rm.slots.contains(rr.slots[i]) && ps(rr.slots[i]));
    }
    lemma_filter_all_slots(r1.slots, ps2);
    assert(retain_spec(r1, scans) =~= r1);

    // The second sort finds the entries already in order.
    lemma_insertion_sort_of_sorted(r1.worktrees, entry_leq(r1.active_slot_id));
    assert(sort_spec(r1) =~= r1);

    assert(reconcile_spec(r1, scans, now2) == r1);
}

} // verus!
