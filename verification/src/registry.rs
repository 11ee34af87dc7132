//! The worktree slot registry: one metadata entry and one resource slot per
//! worktree, at most one slot active, timed eviction of cached handles, and
//! an idempotent merge against an externally reported worktree listing.

use vstd::prelude::*;

use crate::order::lex_le;
use crate::order::lemma_lex_le_antisymmetric;
use crate::order::lemma_lex_le_total;
use crate::order::lemma_lex_le_transitive;
use crate::order::str_lex_le;
use crate::sorting::insert_sorted;
use crate::sorting::insertion_sort;
use crate::sorting::leq_total;
use crate::sorting::leq_transitive;

verus! {

/// How long a cached slot's handle is kept warm before eviction, in seconds.
pub const CACHED_SLOT_TIMEOUT_SECS: i64 = 300;

/// Stable identity of a worktree slot: the worktree's canonical path.
#[derive(Debug)]
pub struct WorktreeSlotId(pub String);

/// Durable display metadata for one worktree; survives handle eviction.
#[derive(Debug)]
pub struct WorktreeEntry {
    pub slot_id: WorktreeSlotId,
    pub worktree_path: String,
    pub branch_name: String,
    pub last_accessed: i64,
    pub agent_chat_count: usize,
}

/// Lifecycle state of a worktree slot.
#[derive(Debug, Clone, Copy, PartialEq, Eq, Structural)]
pub enum SlotState {
    Active,
    Cached,
    Unloaded,
}

/// The heavy per-worktree resource.  The slot that holds one owns it
/// exclusively; eviction releases that ownership.
#[derive(Debug)]
pub struct ProjectHandle {
    pub worktree_path: String,
}

/// A subset of a slot's identity kept for workspace serialization.
#[derive(Debug)]
pub struct SerializedWorkspaceSlot {
    pub slot_id: WorktreeSlotId,
}

/// The lifecycle-managed resource wrapper for one worktree.
#[derive(Debug)]
pub struct WorktreeSlot {
    pub slot_id: WorktreeSlotId,
    pub worktree_path: String,
    pub state: SlotState,
    pub project: Option<ProjectHandle>,
    pub serialized: Option<SerializedWorkspaceSlot>,
    /// When the pending eviction, if any, is due (seconds since the epoch).
    /// The caller schedules the actual timer from this.
    pub cleanup_at: Option<i64>,
}

/// A worktree as reported by one external repository scan.
#[derive(Debug)]
pub struct ScannedWorktree {
    pub worktree_path: String,
    pub branch_name: String,
}

/// Lifecycle notifications emitted by the registry, for the caller to
/// forward to its subscribers.
#[derive(Debug)]
pub enum WorktreeRegistryEvent {
    ActiveSlotChanged { old_slot_id: Option<WorktreeSlotId>, new_slot_id: WorktreeSlotId },
    WorktreeAdded(WorktreeSlotId),
    WorktreeRemoved(WorktreeSlotId),
    WorktreesScanned,
}

/// The registry itself: entries for display, slots for lifecycle, and the
/// identity of the currently active worktree.
pub struct WorktreeRegistry {
    repo_identity_path: String,
    repo_root_path: String,
    worktrees: Vec<WorktreeEntry>,
    slots: Vec<WorktreeSlot>,
    active_slot_id: Option<WorktreeSlotId>,
    is_git_repo: bool,
}

// ---------------------------------------------------------------------------
// Mathematical views
// ---------------------------------------------------------------------------

#[verifier::ext_equal]
pub struct EntryV {
    pub slot_id: Seq<char>,
    pub worktree_path: Seq<char>,
    pub branch_name: Seq<char>,
    pub last_accessed: int,
    pub agent_chat_count: int,
}

#[verifier::ext_equal]
pub struct HandleV {
    pub worktree_path: Seq<char>,
}

#[verifier::ext_equal]
pub struct SlotV {
    pub slot_id: Seq<char>,
    pub worktree_path: Seq<char>,
    pub state: SlotState,
    pub project: Option<HandleV>,
    pub serialized: Option<Seq<char>>,
    pub cleanup_at: Option<int>,
}

#[verifier::ext_equal]
pub struct ScanV {
    pub worktree_path: Seq<char>,
    pub branch_name: Seq<char>,
}

#[verifier::ext_equal]
pub enum EventV {
    ActiveSlotChanged { old_slot_id: Option<Seq<char>>, new_slot_id: Seq<char> },
    WorktreeAdded(Seq<char>),
    WorktreeRemoved(Seq<char>),
    WorktreesScanned,
}

#[verifier::ext_equal]
pub struct RegistryV {
    pub repo_identity_path: Seq<char>,
    pub repo_root_path: Seq<char>,
    pub worktrees: Seq<EntryV>,
    pub slots: Seq<SlotV>,
    pub active_slot_id: Option<Seq<char>>,
    pub is_git_repo: bool,
}

impl View for WorktreeSlotId {
    type V = Seq<char>;

    open spec fn view(&self) -> Seq<char> {
        self.0@
    }
}

impl DeepView for WorktreeSlotId {
    type V = Seq<char>;

    open spec fn deep_view(&self) -> Seq<char> {
        self.0@
    }
}

impl View for WorktreeEntry {
    type V = EntryV;

    open spec fn view(&self) -> EntryV {
        EntryV {
            slot_id: self.slot_id@,
            worktree_path: self.worktree_path@,
            branch_name: self.branch_name@,
            last_accessed: self.last_accessed as int,
            agent_chat_count: self.agent_chat_count as int,
        }
    }
}

impl DeepView for WorktreeEntry {
    type V = EntryV;

    open spec fn deep_view(&self) -> EntryV {
        self@
    }
}

impl View for ProjectHandle {
    type V = HandleV;

    open spec fn view(&self) -> HandleV {
        HandleV { worktree_path: self.worktree_path@ }
    }
}

impl View for WorktreeSlot {
    type V = SlotV;

    open spec fn view(&self) -> SlotV {
        SlotV {
            slot_id: self.slot_id@,
            worktree_path: self.worktree_path@,
            state: self.state,
            project: match self.project {
                Some(ref h) => Some(h@),
                None => None,
            },
            serialized: match self.serialized {
                Some(ref s) => Some(s.slot_id@),
                None => None,
            },
            cleanup_at: match self.cleanup_at {
                Some(t) => Some(t as int),
                None => None,
            },
        }
    }
}

impl DeepView for WorktreeSlot {
    type V = SlotV;

    open spec fn deep_view(&self) -> SlotV {
        self@
    }
}

impl View for ScannedWorktree {
    type V = ScanV;

    open spec fn view(&self) -> ScanV {
        ScanV { worktree_path: self.worktree_path@, branch_name: self.branch_name@ }
    }
}

impl DeepView for ScannedWorktree {
    type V = ScanV;

    open spec fn deep_view(&self) -> ScanV {
        self@
    }
}

impl View for WorktreeRegistryEvent {
    type V = EventV;

    open spec fn view(&self) -> EventV {
        match self {
            WorktreeRegistryEvent::ActiveSlotChanged { old_slot_id, new_slot_id } => {
                EventV::ActiveSlotChanged {
                    old_slot_id: match old_slot_id {
                        Some(id) => Some(id@),
                        None => None,
                    },
                    new_slot_id: new_slot_id@,
                }
            },
            WorktreeRegistryEvent::WorktreeAdded(id) => EventV::WorktreeAdded(id@),
            WorktreeRegistryEvent::WorktreeRemoved(id) => EventV::WorktreeRemoved(id@),
            WorktreeRegistryEvent::WorktreesScanned => EventV::WorktreesScanned,
        }
    }
}

impl DeepView for WorktreeRegistryEvent {
    type V = EventV;

    open spec fn deep_view(&self) -> EventV {
        self@
    }
}

impl View for WorktreeRegistry {
    type V = RegistryV;

    closed spec fn view(&self) -> RegistryV {
        RegistryV {
            repo_identity_path: self.repo_identity_path@,
            repo_root_path: self.repo_root_path@,
            worktrees: self.worktrees.deep_view(),
            slots: self.slots.deep_view(),
            active_slot_id: match self.active_slot_id {
                Some(ref id) => Some(id@),
                None => None,
            },
            is_git_repo: self.is_git_repo,
        }
    }
}

// ---------------------------------------------------------------------------
// Finding things by identity
// ---------------------------------------------------------------------------

/// Index of the first element satisfying `p`, or -1 when there is none.
pub open spec fn idx_of<A>(s: Seq<A>, p: spec_fn(A) -> bool) -> int
    decreases s.len(),
{
    if s.len() == 0 {
        -1
    } else if p(s[0]) {
        0
    } else if idx_of(s.drop_first(), p) == -1 {
        -1
    } else {
        1 + idx_of(s.drop_first(), p)
    }
}

pub proof fn lemma_idx_of<A>(s: Seq<A>, p: spec_fn(A) -> bool)
    ensures
        idx_of(s, p) >= -1,
        idx_of(s, p) == -1 ==> forall|i: int| 0 <= i < s.len() ==> !p(#[trigger] s[i]),
        idx_of(s, p) != -1 ==> 0 <= idx_of(s, p) < s.len() && p(s[idx_of(s, p)]) && forall|i: int|
            0 <= i < idx_of(s, p) ==> !p(#[trigger] s[i]),
    decreases s.len(),
{
    if s.len() != 0 && !p(s[0]) {
        lemma_idx_of(s.drop_first(), p);
        assert forall|i: int| 1 <= i < s.len() implies s.drop_first()[i - 1] == s[i] by {}
    }
}

/// A scan that finds the first match at `i` (or no match, with `i` the
/// length) computes `idx_of`.
pub proof fn lemma_idx_of_scan<A>(s: Seq<A>, p: spec_fn(A) -> bool, i: int)
    requires
        0 <= i <= s.len(),
        forall|k: int| 0 <= k < i ==> !p(#[trigger] s[k]),
        i < s.len() ==> p(s[i]),
    ensures
        idx_of(s, p) == if i < s.len() { i } else { -1 },
    decreases s.len(),
{
    if s.len() != 0 && i != 0 {
        assert forall|k: int| 0 <= k < i - 1 implies !p(#[trigger] s.drop_first()[k]) by {
            assert(s.drop_first()[k] == s[k + 1]);
        }
        assert(i - 1 < s.drop_first().len() ==> p(s.drop_first()[i - 1]));
        lemma_idx_of_scan(s.drop_first(), p, i - 1);
    }
}

/// Two sequences that agree pointwise on `p` agree on `idx_of`.
pub proof fn lemma_idx_of_same<A>(s1: Seq<A>, s2: Seq<A>, p: spec_fn(A) -> bool)
    requires
        s1.len() == s2.len(),
        forall|i: int| 0 <= i < s1.len() ==> p(#[trigger] s1[i]) == p(#[trigger] s2[i]),
    ensures
        idx_of(s1, p) == idx_of(s2, p),
    decreases s1.len(),
{
    if s1.len() != 0 {
        assert forall|i: int| 0 <= i < s1.drop_first().len() implies p(
            #[trigger] s1.drop_first()[i],
        ) == p(#[trigger] s2.drop_first()[i]) by {
            assert(s1.drop_first()[i] == s1[i + 1]);
            assert(s2.drop_first()[i] == s2[i + 1]);
        }
        lemma_idx_of_same(s1.drop_first(), s2.drop_first(), p);
    }
}

pub open spec fn entry_id_is(id: Seq<char>) -> spec_fn(EntryV) -> bool {
    |e: EntryV| e.slot_id == id
}

pub open spec fn slot_id_is(id: Seq<char>) -> spec_fn(SlotV) -> bool {
    |s: SlotV| s.slot_id == id
}

pub open spec fn entry_idx(es: Seq<EntryV>, id: Seq<char>) -> int {
    idx_of(es, entry_id_is(id))
}

pub open spec fn slot_idx(ss: Seq<SlotV>, id: Seq<char>) -> int {
    idx_of(ss, slot_id_is(id))
}

pub open spec fn has_entry(es: Seq<EntryV>, id: Seq<char>) -> bool {
    exists|i: int| 0 <= i < es.len() && es[i].slot_id == id
}

pub open spec fn has_slot(ss: Seq<SlotV>, id: Seq<char>) -> bool {
    exists|i: int| 0 <= i < ss.len() && ss[i].slot_id == id
}

pub proof fn lemma_entry_idx(es: Seq<EntryV>, id: Seq<char>)
    ensures
        entry_idx(es, id) >= -1,
        has_entry(es, id) <==> entry_idx(es, id) >= 0,
        entry_idx(es, id) >= 0 ==> entry_idx(es, id) < es.len() && es[entry_idx(es, id)].slot_id
            == id && forall|i: int| 0 <= i < entry_idx(es, id) ==> (#[trigger] es[i]).slot_id != id,
{
    lemma_idx_of(es, entry_id_is(id));
}

/// Two entry lists with the same identities in the same places agree on
/// where any identity is found.
pub proof fn lemma_entry_idx_pointwise(a: Seq<EntryV>, b: Seq<EntryV>, id: Seq<char>)
    requires
        a.len() == b.len(),
        forall|i: int| 0 <= i < a.len() ==> (#[trigger] a[i]).slot_id == (#[trigger] b[i]).slot_id,
    ensures
        entry_idx(a, id) == entry_idx(b, id),
{
    let p = entry_id_is(id);
    assert forall|i: int| 0 <= i < a.len() implies p(#[trigger] a[i]) == p(#[trigger] b[i]) by {
        assert(a[i].slot_id == b[i].slot_id);
    }
    lemma_idx_of_same(a, b, p);
}

/// A scan that finds the first entry under `id` at `i` — or none at all,
/// with `i` the length — determines `entry_idx`.
pub proof fn lemma_entry_idx_at(es: Seq<EntryV>, id: Seq<char>, i: int)
    requires
        0 <= i <= es.len(),
        forall|k: int| 0 <= k < i ==> (#[trigger] es[k]).slot_id != id,
        i < es.len() ==> es[i].slot_id == id,
    ensures
        entry_idx(es, id) == if i < es.len() {
            i
        } else {
            -1
        },
{
    let p = entry_id_is(id);
    assert forall|k: int| 0 <= k < i implies !p(#[trigger] es[k]) by {
        assert(es[k].slot_id != id);
    }
    lemma_idx_of_scan(es, p, i);
}

pub proof fn lemma_slot_idx(ss: Seq<SlotV>, id: Seq<char>)
    ensures
        slot_idx(ss, id) >= -1,
        has_slot(ss, id) <==> slot_idx(ss, id) >= 0,
        slot_idx(ss, id) >= 0 ==> slot_idx(ss, id) < ss.len() && ss[slot_idx(ss, id)].slot_id == id
            && forall|i: int| 0 <= i < slot_idx(ss, id) ==> (#[trigger] ss[i]).slot_id != id,
{
    lemma_idx_of(ss, slot_id_is(id));
}

// ---------------------------------------------------------------------------
// Well-formedness
// ---------------------------------------------------------------------------

/// What must hold of one slot, given the currently active identity:
/// the active identity marks exactly the active slot; a handle is resident
/// exactly outside `Unloaded`; an eviction is pending exactly in `Cached`.
pub open spec fn slot_wf(active: Option<Seq<char>>, s: SlotV) -> bool {
    &&& (s.state == SlotState::Active <==> active == Some(s.slot_id))
    &&& (s.project is Some <==> s.state != SlotState::Unloaded)
    &&& (s.cleanup_at is Some <==> s.state == SlotState::Cached)
}

/// The registry invariant: identities are unique, entries and slots are in
/// 1:1 correspondence, every slot is well formed, and the active identity
/// is always registered.
pub open spec fn wf(r: RegistryV) -> bool {
    &&& forall|i: int, j: int|
        0 <= i < j < r.worktrees.len() ==> (#[trigger] r.worktrees[i]).slot_id
            != (#[trigger] r.worktrees[j]).slot_id
    &&& forall|i: int, j: int|
        0 <= i < j < r.slots.len() ==> (#[trigger] r.slots[i]).slot_id
            != (#[trigger] r.slots[j]).slot_id
    &&& forall|i: int|
        0 <= i < r.worktrees.len() ==> has_slot(r.slots, (#[trigger] r.worktrees[i]).slot_id)
    &&& forall|i: int|
        0 <= i < r.slots.len() ==> has_entry(r.worktrees, (#[trigger] r.slots[i]).slot_id)
    &&& forall|i: int| 0 <= i < r.slots.len() ==> slot_wf(r.active_slot_id, #[trigger] r.slots[i])
    &&& match r.active_slot_id {
        Some(a) => has_entry(r.worktrees, a),
        None => true,
    }
}

/// At most one slot is active: a consequence of well-formedness.
pub proof fn lemma_wf_single_active(r: RegistryV)
    requires
        wf(r),
    ensures
        forall|i: int, j: int|
            0 <= i < r.slots.len() && 0 <= j < r.slots.len() && (#[trigger] r.slots[i]).state
                == SlotState::Active && (#[trigger] r.slots[j]).state == SlotState::Active ==> i
                == j,
{
    assert forall|i: int, j: int|
        0 <= i < r.slots.len() && 0 <= j < r.slots.len() && (#[trigger] r.slots[i]).state
            == SlotState::Active && (#[trigger] r.slots[j]).state
            == SlotState::Active implies i == j by {
        assert(slot_wf(r.active_slot_id, r.slots[i]));
        assert(slot_wf(r.active_slot_id, r.slots[j]));
        assert(r.slots[i].slot_id == r.slots[j].slot_id);
        if i < j {
            assert(false);
        }
        if j < i {
            assert(false);
        }
    }
}

// ---------------------------------------------------------------------------
// The presentation order
// ---------------------------------------------------------------------------

/// The active entry sorts before all others.
pub open spec fn entry_rank(active: Option<Seq<char>>, e: EntryV) -> int {
    if active == Some(e.slot_id) {
        0
    } else {
        1
    }
}

/// Non-active entries are ordered by branch label, then by path.
pub open spec fn entry_key_le(a: EntryV, b: EntryV) -> bool {
    if a.branch_name == b.branch_name {
        lex_le(a.worktree_path, b.worktree_path)
    } else {
        lex_le(a.branch_name, b.branch_name)
    }
}

pub open spec fn entry_le(active: Option<Seq<char>>, a: EntryV, b: EntryV) -> bool {
    ||| entry_rank(active, a) < entry_rank(active, b)
    ||| (entry_rank(active, a) == entry_rank(active, b) && entry_key_le(a, b))
}

pub open spec fn entry_leq(active: Option<Seq<char>>) -> spec_fn(EntryV, EntryV) -> bool {
    |a: EntryV, b: EntryV| entry_le(active, a, b)
}

pub proof fn lemma_entry_key_le_transitive(a: EntryV, b: EntryV, c: EntryV)
    requires
        entry_key_le(a, b),
        entry_key_le(b, c),
    ensures
        entry_key_le(a, c),
{
    if a.branch_name == b.branch_name && b.branch_name == c.branch_name {
        lemma_lex_le_transitive(a.worktree_path, b.worktree_path, c.worktree_path);
    } else if a.branch_name == b.branch_name {
        assert(a.branch_name != c.branch_name);
    } else if b.branch_name == c.branch_name {
        assert(a.branch_name != c.branch_name);
    } else {
        lemma_lex_le_transitive(a.branch_name, b.branch_name, c.branch_name);
        if a.branch_name == c.branch_name {
            lemma_lex_le_antisymmetric(a.branch_name, b.branch_name);
        }
    }
}

// ---------------------------------------------------------------------------
// The transitions, at the specification level
// ---------------------------------------------------------------------------

/// Branch label shown before the first successful scan.
pub open spec fn initial_branch_label(is_git_repo: bool) -> Seq<char> {
    if is_git_repo {
        "(scanning...)"@
    } else {
        "(no git)"@
    }
}

/// When an eviction scheduled now falls due, saturating at the clock's range.
pub open spec fn eviction_deadline(now: int) -> int {
    if now + CACHED_SLOT_TIMEOUT_SECS <= i64::MAX {
        now + CACHED_SLOT_TIMEOUT_SECS
    } else {
        i64::MAX as int
    }
}

pub open spec fn new_entry_v(id: Seq<char>, path: Seq<char>, branch: Seq<char>, now: int) -> EntryV {
    EntryV {
        slot_id: id,
        worktree_path: path,
        branch_name: branch,
        last_accessed: now,
        agent_chat_count: 0,
    }
}

pub open spec fn new_slot_v(id: Seq<char>, path: Seq<char>) -> SlotV {
    SlotV {
        slot_id: id,
        worktree_path: path,
        state: SlotState::Unloaded,
        project: None,
        serialized: None,
        cleanup_at: None,
    }
}

/// A fresh registry: one bootstrap worktree, already active with its handle
/// built and no eviction pending.
pub open spec fn new_spec(root: Seq<char>, identity: Seq<char>, is_git_repo: bool, now: int) -> RegistryV {
    RegistryV {
        repo_identity_path: identity,
        repo_root_path: root,
        worktrees: seq![new_entry_v(root, root, initial_branch_label(is_git_repo), now)],
        slots: seq![
            SlotV {
                slot_id: root,
                worktree_path: root,
                state: SlotState::Active,
                project: Some(HandleV { worktree_path: root }),
                serialized: None,
                cleanup_at: None,
            },
        ],
        active_slot_id: Some(root),
        is_git_repo,
    }
}

/// Step one of activation: the previously active slot, if any, becomes
/// cached with a fresh eviction deadline.
pub open spec fn cache_active_spec(r: RegistryV, now: int) -> RegistryV {
    match r.active_slot_id {
        Some(old_id) => {
            let si = slot_idx(r.slots, old_id);
            if si >= 0 && r.slots[si].state == SlotState::Active {
                RegistryV {
                    slots: r.slots.update(
                        si,
                        SlotV {
                            state: SlotState::Cached,
                            cleanup_at: Some(eviction_deadline(now)),
                            ..r.slots[si]
                        },
                    ),
                    ..r
                }
            } else {
                r
            }
        },
        None => r,
    }
}

/// Step two: an unknown identity is registered on first reference, with a
/// bare entry whose path is the identity itself.
pub open spec fn ensure_registered_spec(r: RegistryV, id: Seq<char>, now: int) -> RegistryV {
    if has_entry(r.worktrees, id) {
        r
    } else {
        RegistryV {
            worktrees: r.worktrees.push(
                new_entry_v(id, id, initial_branch_label(r.is_git_repo), now),
            ),
            slots: r.slots.push(new_slot_v(id, id)),
            ..r
        }
    }
}

/// Step three: the target slot loses any pending eviction, gets a handle if
/// it has none, and becomes the active slot.
pub open spec fn load_slot_spec(r: RegistryV, id: Seq<char>) -> RegistryV {
    let si = slot_idx(r.slots, id);
    if si >= 0 {
        let s = r.slots[si];
        let handle = if s.project is Some {
            s.project
        } else {
            Some(HandleV { worktree_path: s.worktree_path })
        };
        RegistryV {
            slots: r.slots.update(
                si,
                SlotV { state: SlotState::Active, project: handle, cleanup_at: None, ..s },
            ),
            active_slot_id: Some(id),
            ..r
        }
    } else {
        RegistryV { active_slot_id: Some(id), ..r }
    }
}

/// Step four: the target entry's last access time is refreshed.
pub open spec fn touch_entry_spec(r: RegistryV, id: Seq<char>, now: int) -> RegistryV {
    let ei = entry_idx(r.worktrees, id);
    if ei >= 0 {
        RegistryV {
            worktrees: r.worktrees.update(
                ei,
                EntryV { last_accessed: now, ..r.worktrees[ei] },
            ),
            ..r
        }
    } else {
        r
    }
}

/// The full activation transition.
pub open spec fn activate_spec(r: RegistryV, id: Seq<char>, now: int) -> RegistryV {
    touch_entry_spec(
        load_slot_spec(ensure_registered_spec(cache_active_spec(r, now), id, now), id),
        id,
        now,
    )
}

/// A fired eviction re-validates: only a slot still cached is unloaded.
pub open spec fn cleanup_spec(r: RegistryV, id: Seq<char>) -> RegistryV {
    let si = slot_idx(r.slots, id);
    if si >= 0 && r.slots[si].state == SlotState::Cached {
        RegistryV {
            slots: r.slots.update(
                si,
                SlotV {
                    state: SlotState::Unloaded,
                    project: None,
                    cleanup_at: None,
                    ..r.slots[si]
                },
            ),
            ..r
        }
    } else {
        r
    }
}

/// Registration: a new entry and an unloaded slot, or nothing when the
/// identity is already known.
pub open spec fn register_spec(r: RegistryV, entry: EntryV) -> RegistryV {
    if has_entry(r.worktrees, entry.slot_id) {
        r
    } else {
        RegistryV {
            worktrees: r.worktrees.push(entry),
            slots: r.slots.push(new_slot_v(entry.slot_id, entry.worktree_path)),
            ..r
        }
    }
}

/// Removal: a no-op on the active identity, else entry and slot both go.
pub open spec fn remove_spec(r: RegistryV, id: Seq<char>) -> RegistryV {
    if r.active_slot_id == Some(id) {
        r
    } else {
        RegistryV {
            worktrees: r.worktrees.filter(|e: EntryV| e.slot_id != id),
            slots: r.slots.filter(|s: SlotV| s.slot_id != id),
            ..r
        }
    }
}

pub open spec fn update_chat_count_spec(r: RegistryV, id: Seq<char>, count: int) -> RegistryV {
    let ei = entry_idx(r.worktrees, id);
    if ei >= 0 {
        RegistryV {
            worktrees: r.worktrees.update(
                ei,
                EntryV { agent_chat_count: count, ..r.worktrees[ei] },
            ),
            ..r
        }
    } else {
        r
    }
}

pub open spec fn refreshed_placeholder(root: Seq<char>, e: EntryV) -> EntryV {
    if e.worktree_path == root && e.branch_name == "(no git)"@ {
        EntryV { branch_name: "(scanning...)"@, ..e }
    } else {
        e
    }
}

/// Turning git support on records the repository identity and refreshes the
/// bootstrap placeholder labels; on a repository already known to be git it
/// only updates the identity path.
pub open spec fn enable_git_repo_spec(r: RegistryV, identity: Seq<char>) -> RegistryV {
    if r.is_git_repo {
        RegistryV { repo_identity_path: identity, ..r }
    } else {
        RegistryV {
            is_git_repo: true,
            repo_identity_path: identity,
            worktrees: Seq::new(
                r.worktrees.len(),
                |i: int| refreshed_placeholder(r.repo_root_path, r.worktrees[i]),
            ),
            ..r
        }
    }
}

/// One reported worktree merges in: a known identity has its path and
/// branch label updated in place, an unknown one gets a fresh entry and an
/// unloaded slot.
pub open spec fn merge_one_spec(r: RegistryV, sc: ScanV, now: int) -> RegistryV {
    let id = sc.worktree_path;
    let ei = entry_idx(r.worktrees, id);
    if ei >= 0 {
        RegistryV {
            worktrees: r.worktrees.update(
                ei,
                EntryV {
                    worktree_path: sc.worktree_path,
                    branch_name: sc.branch_name,
                    ..r.worktrees[ei]
                },
            ),
            ..r
        }
    } else {
        RegistryV {
            worktrees: r.worktrees.push(new_entry_v(id, sc.worktree_path, sc.branch_name, now)),
            slots: r.slots.push(new_slot_v(id, sc.worktree_path)),
            ..r
        }
    }
}

pub open spec fn merge_spec(r: RegistryV, scans: Seq<ScanV>, now: int) -> RegistryV
    decreases scans.len(),
{
    if scans.len() == 0 {
        r
    } else {
        merge_spec(merge_one_spec(r, scans[0], now), scans.drop_first(), now)
    }
}

pub open spec fn scan_has_id(scans: Seq<ScanV>, id: Seq<char>) -> bool {
    exists|i: int| 0 <= i < scans.len() && scans[i].worktree_path == id
}

/// An identity survives the scan if it was reported or is currently active.
pub open spec fn retain_keep(active: Option<Seq<char>>, scans: Seq<ScanV>, id: Seq<char>) -> bool {
    scan_has_id(scans, id) || active == Some(id)
}

pub open spec fn retain_spec(r: RegistryV, scans: Seq<ScanV>) -> RegistryV {
    RegistryV {
        worktrees: r.worktrees.filter(
            |e: EntryV| retain_keep(r.active_slot_id, scans, e.slot_id),
        ),
        slots: r.slots.filter(|s: SlotV| retain_keep(r.active_slot_id, scans, s.slot_id)),
        ..r
    }
}

pub open spec fn sort_spec(r: RegistryV) -> RegistryV {
    RegistryV { worktrees: insertion_sort(r.worktrees, entry_leq(r.active_slot_id)), ..r }
}

/// The full reconciliation: merge every reported worktree, drop what the
/// scan no longer reports (the active identity excepted), re-sort.
pub open spec fn reconcile_spec(r: RegistryV, scans: Seq<ScanV>, now: int) -> RegistryV {
    sort_spec(retain_spec(merge_spec(r, scans, now), scans))
}

pub open spec fn path_listed(paths: Seq<Seq<char>>, p: Seq<char>) -> bool {
    exists|i: int| 0 <= i < paths.len() && paths[i] == p
}

/// An entry survives path validation if its path is among those that still
/// exist, or it is the active one.
pub open spec fn validate_keep(
    active: Option<Seq<char>>,
    paths: Seq<Seq<char>>,
    e: EntryV,
) -> bool {
    path_listed(paths, e.worktree_path) || active == Some(e.slot_id)
}

pub open spec fn validate_spec(r: RegistryV, paths: Seq<Seq<char>>) -> RegistryV {
    let kept = r.worktrees.filter(|e: EntryV| validate_keep(r.active_slot_id, paths, e));
    RegistryV {
        worktrees: kept,
        slots: r.slots.filter(|s: SlotV| has_entry(kept, s.slot_id)),
        ..r
    }
}

/// The removal notices that path validation emits, one per dropped entry,
/// in the entries' order.
pub open spec fn validate_events(r: RegistryV, paths: Seq<Seq<char>>) -> Seq<EventV> {
    r.worktrees.filter(|e: EntryV| !validate_keep(r.active_slot_id, paths, e)).map_values(
        |e: EntryV| EventV::WorktreeRemoved(e.slot_id),
    )
}

pub proof fn lemma_entry_leq_order(active: Option<Seq<char>>)
    ensures
        leq_total(entry_leq(active)),
        leq_transitive(entry_leq(active)),
{
    let leq = entry_leq(active);
    assert forall|a: EntryV, b: EntryV| #[trigger] leq(a, b) || #[trigger] leq(b, a) by {
        lemma_lex_le_total(a.branch_name, b.branch_name);
        lemma_lex_le_total(a.worktree_path, b.worktree_path);
    }
    assert forall|a: EntryV, b: EntryV, c: EntryV|
        #![trigger leq(a, b), leq(b, c)]
        leq(a, b) && leq(b, c) implies leq(a, c) by {
        if entry_rank(active, a) == entry_rank(active, b) && entry_rank(active, b) == entry_rank(
            active,
            c,
        ) {
            lemma_entry_key_le_transitive(a, b, c);
        }
    }
}

// ---------------------------------------------------------------------------
// The wall clock
// ---------------------------------------------------------------------------

/// Relies on chrono's `Utc::now` and `DateTime::timestamp`: the current
/// wall-clock time in whole seconds since the Unix epoch.  `Utc::now`
/// panics rather than report a pre-epoch system time, so whenever this call
/// returns, its result is non-negative.
#[verifier::external_body]
fn now_timestamp() -> (r: i64)
    ensures
        r >= 0,
{
    chrono::Utc::now().timestamp()
}

// ---------------------------------------------------------------------------
// Executable basics
// ---------------------------------------------------------------------------

impl Clone for WorktreeSlotId {
    fn clone(&self) -> (r: Self)
        ensures
            r@ == self@,
    {
        WorktreeSlotId(self.0.clone())
    }
}

impl PartialEq for WorktreeSlotId {
    fn eq(&self, other: &Self) -> (r: bool) {
        self.0 == other.0
    }
}

impl vstd::std_specs::cmp::PartialEqSpecImpl for WorktreeSlotId {
    open spec fn obeys_eq_spec() -> bool {
        true
    }

    open spec fn eq_spec(&self, other: &Self) -> bool {
        self@ == other@
    }
}

impl Clone for WorktreeEntry {
    fn clone(&self) -> (r: Self)
        ensures
            r@ == self@,
    {
        WorktreeEntry {
            slot_id: self.slot_id.clone(),
            worktree_path: self.worktree_path.clone(),
            branch_name: self.branch_name.clone(),
            last_accessed: self.last_accessed,
            agent_chat_count: self.agent_chat_count,
        }
    }
}

impl Clone for ScannedWorktree {
    fn clone(&self) -> (r: Self)
        ensures
            r@ == self@,
    {
        ScannedWorktree {
            worktree_path: self.worktree_path.clone(),
            branch_name: self.branch_name.clone(),
        }
    }
}

impl WorktreeSlotId {
    /// Identity derived from a path inside the repository's git directory.
    pub fn from_git_path(git_path: &str) -> (r: Self)
        ensures
            r@ == git_path@,
    {
        WorktreeSlotId(git_path.to_owned())
    }

    /// Identity derived from the worktree's canonical path.
    pub fn from_worktree_path(worktree_path: &str) -> (r: Self)
        ensures
            r@ == worktree_path@,
    {
        WorktreeSlotId(worktree_path.to_owned())
    }
}

impl WorktreeEntry {
    /// A fresh entry with an explicit access time and no chats attached.
    pub fn new_at(
        slot_id: WorktreeSlotId,
        worktree_path: String,
        branch_name: String,
        last_accessed: i64,
    ) -> (r: Self)
        ensures
            r@ == new_entry_v(slot_id@, worktree_path@, branch_name@, last_accessed as int),
    {
        WorktreeEntry { slot_id, worktree_path, branch_name, last_accessed, agent_chat_count: 0 }
    }

    /// A fresh entry stamped with the wall clock.
    pub fn new(slot_id: WorktreeSlotId, worktree_path: String, branch_name: String) -> (r: Self)
        ensures
            r@ == new_entry_v(slot_id@, worktree_path@, branch_name@, r@.last_accessed),
            r@.last_accessed >= 0,
    {
        let now = now_timestamp();
        Self::new_at(slot_id, worktree_path, branch_name, now)
    }
}

impl WorktreeSlot {
    /// A fresh slot: unloaded, no handle, no pending eviction.
    pub fn new(slot_id: WorktreeSlotId, worktree_path: String) -> (r: Self)
        ensures
            r@ == new_slot_v(slot_id@, worktree_path@),
    {
        WorktreeSlot {
            slot_id,
            worktree_path,
            state: SlotState::Unloaded,
            project: None,
            serialized: None,
            cleanup_at: None,
        }
    }

    /// Whether the heavy handle is resident.
    pub fn is_loaded(&self) -> (r: bool)
        ensures
            r == (self@.project is Some),
    {
        self.project.is_some()
    }
}

fn eviction_deadline_at(now: i64) -> (r: i64)
    ensures
        r as int == eviction_deadline(now as int),
{
    if now <= i64::MAX - CACHED_SLOT_TIMEOUT_SECS {
        now + CACHED_SLOT_TIMEOUT_SECS
    } else {
        i64::MAX
    }
}

/// Index of the entry with the given identity, scanning from the front.
fn find_entry(entries: &Vec<WorktreeEntry>, id: &WorktreeSlotId) -> (r: Option<usize>)
    ensures
        match r {
            Some(i) => i < entries.len() && entry_idx(entries.deep_view(), id@) == i as int,
            None => entry_idx(entries.deep_view(), id@) == -1,
        },
{
    let ghost dv = entries.deep_view();
    let n = entries.len();
    let mut i: usize = 0;
    while i < n
        invariant
            i <= n,
            n == entries.len(),
            dv == entries.deep_view(),
            dv.len() == n,
            forall|k: int| 0 <= k < i ==> (#[trigger] dv[k]).slot_id != id@,
        decreases n - i,
    {
        if entries[i].slot_id.0 == id.0 {
            proof {
                assert(dv[i as int].slot_id == id@);
                lemma_idx_of_scan(dv, entry_id_is(id@), i as int);
            }
            return Some(i);
        }
        proof {
            assert(dv[i as int].slot_id != id@);
        }
        i = i + 1;
    }
    proof {
        lemma_idx_of_scan(dv, entry_id_is(id@), n as int);
    }
    None
}

/// Whether the given path occurs in the list.
fn path_listed_exec(paths: &Vec<String>, p: &String) -> (r: bool)
    ensures
        r == path_listed(paths.deep_view(), p@),
{
    let ghost dv = paths.deep_view();
    let n = paths.len();
    let mut i: usize = 0;
    while i < n
        invariant
            i <= n,
            n == paths.len(),
            dv == paths.deep_view(),
            dv.len() == n,
            forall|k: int| 0 <= k < i ==> #[trigger] dv[k] != p@,
        decreases n - i,
    {
        if paths[i] == *p {
            proof {
                assert(dv[i as int] == p@);
            }
            return true;
        }
        proof {
            assert(dv[i as int] != p@);
        }
        i = i + 1;
    }
    false
}

/// Whether some reported worktree carries this identity.
fn scan_lists_id(scanned: &Vec<ScannedWorktree>, id: &WorktreeSlotId) -> (r: bool)
    ensures
        r == scan_has_id(scanned.deep_view(), id@),
{
    let ghost dv = scanned.deep_view();
    let n = scanned.len();
    let mut i: usize = 0;
    while i < n
        invariant
            i <= n,
            n == scanned.len(),
            dv == scanned.deep_view(),
            dv.len() == n,
            forall|k: int| 0 <= k < i ==> (#[trigger] dv[k]).worktree_path != id@,
        decreases n - i,
    {
        if scanned[i].worktree_path == id.0 {
            proof {
                assert(dv[i as int].worktree_path == id@);
            }
            return true;
        }
        proof {
            assert(dv[i as int].worktree_path != id@);
        }
        i = i + 1;
    }
    false
}

/// The executable presentation order: active first, then branch label,
/// then path.
fn entry_le_exec(active: &Option<WorktreeSlotId>, a: &WorktreeEntry, b: &WorktreeEntry) -> (r:
    bool)
    ensures
        r == entry_le(active.deep_view(), a@, b@),
{
    let a_act = match active {
        Some(id) => id.0 == a.slot_id.0,
        None => false,
    };
    let b_act = match active {
        Some(id) => id.0 == b.slot_id.0,
        None => false,
    };
    proof {
        assert(a_act == (active.deep_view() == Some(a@.slot_id)));
        assert(b_act == (active.deep_view() == Some(b@.slot_id)));
    }
    if a_act != b_act {
        a_act
    } else if a.branch_name == b.branch_name {
        str_lex_le(a.worktree_path.as_str(), b.worktree_path.as_str())
    } else {
        str_lex_le(a.branch_name.as_str(), b.branch_name.as_str())
    }
}

/// Where in the sorted prefix `v[..i]` the element `v[i]` belongs: right
/// before the first element that is not at most it.
fn insert_position(v: &Vec<WorktreeEntry>, active: &Option<WorktreeSlotId>, i: usize) -> (j: usize)
    requires
        i < v.len(),
    ensures
        j <= i,
        forall|k: int|
            0 <= k < j ==> #[trigger] entry_le(
                active.deep_view(),
                v.deep_view()[k],
                v.deep_view()[i as int],
            ),
        j < i ==> !entry_le(active.deep_view(), v.deep_view()[j as int], v.deep_view()[i as int]),
{
    let mut j: usize = 0;
    while j < i
        invariant
            j <= i,
            i < v.len(),
            forall|k: int|
                0 <= k < j ==> #[trigger] entry_le(
                    active.deep_view(),
                    v.deep_view()[k],
                    v.deep_view()[i as int],
                ),
        decreases i - j,
    {
        if !entry_le_exec(active, &v[j], &v[i]) {
            return j;
        }
        j = j + 1;
    }
    j
}

/// Stable insertion sort of the entries under the presentation order,
/// computing exactly the specification-level sort.
fn sort_entries(v: &mut Vec<WorktreeEntry>, active: &Option<WorktreeSlotId>)
    ensures
        final(v).deep_view() == insertion_sort(old(v).deep_view(), entry_leq(active.deep_view())),
{
    let ghost dv0 = v.deep_view();
    let ghost leq = entry_leq(active.deep_view());
    let n = v.len();
    proof {
        assert(dv0.len() == n);
    }
    if n == 0 {
        proof {
            assert(v.deep_view() =~= insertion_sort(dv0, leq));
        }
        return ;
    }
    let mut i: usize = 1;
    proof {
        assert(dv0.take(1).drop_last() =~= dv0.take(0));
        assert(insertion_sort(dv0.take(0), leq) =~= dv0.take(0));
        assert(dv0.take(1) =~= insert_sorted(dv0[0], dv0.take(0), leq));
        assert(v.deep_view().take(1) =~= insertion_sort(dv0.take(1), leq));
        assert(v.deep_view().skip(1) =~= dv0.skip(1));
    }
    while i < n
        invariant
            1 <= i <= n,
            n == v.len(),
            v.deep_view().len() == n,
            dv0.len() == n,
            leq == entry_leq(active.deep_view()),
            v.deep_view().take(i as int) == insertion_sort(dv0.take(i as int), leq),
            v.deep_view().skip(i as int) == dv0.skip(i as int),
        decreases n - i,
    {
        let ghost pre = v.deep_view();
        let ghost prevv = v@;
        let ghost prefix = pre.take(i as int);
        let ghost xd = pre[i as int];
        proof {
            assert(xd == pre.skip(i as int)[0]);
            assert(xd == dv0[i as int]);
            lemma_entry_leq_order(active.deep_view());
            crate::sorting::lemma_insertion_sort_ensures(dv0.take(i as int), leq);
        }
        let j = insert_position(v, active, i);
        proof {
            assert(prefix.len() == i as int);
            assert forall|k: int| 0 <= k < j implies #[trigger] leq(prefix[k], xd) by {
                assert(prefix[k] == pre[k]);
                assert(entry_le(active.deep_view(), pre[k], pre[i as int]));
            }
            assert((j as int) < i as int ==> !leq(prefix[j as int], xd));
            crate::sorting::lemma_insert_sorted_position(xd, prefix, leq, j as int);
        }
        let x = v.remove(i);
        v.insert(j, x);
        proof {
            assert(v@ =~= prevv.remove(i as int).insert(j as int, prevv[i as int]));
            assert forall|k: int| 0 <= k < n implies #[trigger] v.deep_view()[k] == (if k < j {
                pre[k]
            } else if k == j {
                xd
            } else if k <= i {
                pre[k - 1]
            } else {
                pre[k]
            }) by {
                if k < j {
                    assert(v@[k] == prevv[k]);
                } else if k == j {
                    assert(v@[k] == prevv[i as int]);
                } else if k <= i {
                    assert(v@[k] == prevv[k - 1]);
                } else {
                    assert(v@[k] == prevv[k]);
                }
            }
            assert(v.deep_view().take(i as int + 1) =~= prefix.take(j as int) + seq![xd]
                + prefix.skip(j as int));
            assert(v.deep_view().take(i as int + 1) == insert_sorted(xd, prefix, leq));
            assert(dv0.take(i as int + 1).drop_last() =~= dv0.take(i as int));
            assert(dv0.take(i as int + 1).last() == dv0[i as int]);
            assert(insertion_sort(dv0.take(i as int + 1), leq) == insert_sorted(
                dv0[i as int],
                insertion_sort(dv0.take(i as int), leq),
                leq,
            ));
            assert(v.deep_view().take(i as int + 1) == insertion_sort(dv0.take(i as int + 1), leq));
            assert forall|t: int| 0 <= t < n - (i as int + 1) implies #[trigger] v.deep_view().skip(
                i as int + 1,
            )[t] == dv0.skip(i as int + 1)[t] by {
                let k = i as int + 1 + t;
                assert(v.deep_view()[k] == pre[k]);
                assert(pre[k] == pre.skip(i as int)[k - i as int]);
                assert(dv0[k] == dv0.skip(i as int)[k - i as int]);
            }
            assert(v.deep_view().skip(i as int + 1) =~= dv0.skip(i as int + 1));
        }
        i = i + 1;
    }
    proof {
        assert(dv0.take(n as int) =~= dv0);
        assert(v.deep_view().take(n as int) =~= v.deep_view());
    }
}

/// Index of the slot with the given identity, scanning from the front.
fn find_slot(slots: &Vec<WorktreeSlot>, id: &WorktreeSlotId) -> (r: Option<usize>)
    ensures
        match r {
            Some(i) => i < slots.len() && slot_idx(slots.deep_view(), id@) == i as int,
            None => slot_idx(slots.deep_view(), id@) == -1,
        },
{
    let ghost dv = slots.deep_view();
    let n = slots.len();
    let mut i: usize = 0;
    while i < n
        invariant
            i <= n,
            n == slots.len(),
            dv == slots.deep_view(),
            dv.len() == n,
            forall|k: int| 0 <= k < i ==> (#[trigger] dv[k]).slot_id != id@,
        decreases n - i,
    {
        if slots[i].slot_id.0 == id.0 {
            proof {
                assert(dv[i as int].slot_id == id@);
                lemma_idx_of_scan(dv, slot_id_is(id@), i as int);
            }
            return Some(i);
        }
        proof {
            assert(dv[i as int].slot_id != id@);
        }
        i = i + 1;
    }
    proof {
        lemma_idx_of_scan(dv, slot_id_is(id@), n as int);
    }
    None
}

// ---------------------------------------------------------------------------
// Preservation of well-formedness under common reshapings
// ---------------------------------------------------------------------------

pub proof fn lemma_same_ids_has_entry(a: Seq<EntryV>, b: Seq<EntryV>)
    requires
        a.len() == b.len(),
        forall|i: int| 0 <= i < a.len() ==> (#[trigger] a[i]).slot_id == (#[trigger] b[i]).slot_id,
    ensures
        forall|id: Seq<char>| #[trigger] has_entry(a, id) == has_entry(b, id),
{
    assert forall|id: Seq<char>| #[trigger] has_entry(a, id) == has_entry(b, id) by {
        if has_entry(a, id) {
            let i = choose|i: int| 0 <= i < a.len() && a[i].slot_id == id;
            assert(b[i].slot_id == id);
        }
        if has_entry(b, id) {
            let i = choose|i: int| 0 <= i < b.len() && b[i].slot_id == id;
            assert(a[i].slot_id == id);
        }
    }
}

pub proof fn lemma_same_ids_has_slot(a: Seq<SlotV>, b: Seq<SlotV>)
    requires
        a.len() == b.len(),
        forall|i: int| 0 <= i < a.len() ==> (#[trigger] a[i]).slot_id == (#[trigger] b[i]).slot_id,
    ensures
        forall|id: Seq<char>| #[trigger] has_slot(a, id) == has_slot(b, id),
{
    assert forall|id: Seq<char>| #[trigger] has_slot(a, id) == has_slot(b, id) by {
        if has_slot(a, id) {
            let i = choose|i: int| 0 <= i < a.len() && a[i].slot_id == id;
            assert(b[i].slot_id == id);
        }
        if has_slot(b, id) {
            let i = choose|i: int| 0 <= i < b.len() && b[i].slot_id == id;
            assert(a[i].slot_id == id);
        }
    }
}

/// Rewriting entries in place without touching their identities keeps the
/// registry well formed.
pub proof fn lemma_wf_entries_rewrite(r: RegistryV, r2: RegistryV)
    requires
        wf(r),
        r2.slots == r.slots,
        r2.active_slot_id == r.active_slot_id,
        r2.worktrees.len() == r.worktrees.len(),
        forall|i: int|
            0 <= i < r.worktrees.len() ==> (#[trigger] r2.worktrees[i]).slot_id
                == (#[trigger] r.worktrees[i]).slot_id,
    ensures
        wf(r2),
{
    lemma_same_ids_has_entry(r.worktrees, r2.worktrees);
    assert forall|i: int, j: int|
        0 <= i < j < r2.worktrees.len() implies (#[trigger] r2.worktrees[i]).slot_id
        != (#[trigger] r2.worktrees[j]).slot_id by {
        assert(r2.worktrees[i].slot_id == r.worktrees[i].slot_id);
        assert(r2.worktrees[j].slot_id == r.worktrees[j].slot_id);
    }
    assert forall|i: int| 0 <= i < r2.worktrees.len() implies has_slot(
        r2.slots,
        (#[trigger] r2.worktrees[i]).slot_id,
    ) by {
        assert(r2.worktrees[i].slot_id == r.worktrees[i].slot_id);
        assert(has_slot(r.slots, r.worktrees[i].slot_id));
    }
    assert forall|i: int| 0 <= i < r2.slots.len() implies has_entry(
        r2.worktrees,
        (#[trigger] r2.slots[i]).slot_id,
    ) by {
        assert(has_entry(r.worktrees, r.slots[i].slot_id));
    }
    match r2.active_slot_id {
        Some(a) => {
            assert(has_entry(r.worktrees, a));
        },
        None => {},
    }
}

/// Rewriting slots in place without touching their identities keeps the
/// registry well formed, provided each rewritten slot is itself well formed.
pub proof fn lemma_wf_slots_rewrite(r: RegistryV, r2: RegistryV)
    requires
        wf(r),
        r2.worktrees == r.worktrees,
        r2.active_slot_id == r.active_slot_id,
        r2.slots.len() == r.slots.len(),
        forall|i: int|
            0 <= i < r.slots.len() ==> (#[trigger] r2.slots[i]).slot_id
                == (#[trigger] r.slots[i]).slot_id,
        forall|i: int| 0 <= i < r2.slots.len() ==> slot_wf(r2.active_slot_id, #[trigger] r2.slots[i]),
    ensures
        wf(r2),
{
    lemma_same_ids_has_slot(r.slots, r2.slots);
    assert forall|i: int, j: int|
        0 <= i < j < r2.slots.len() implies (#[trigger] r2.slots[i]).slot_id
        != (#[trigger] r2.slots[j]).slot_id by {
        assert(r2.slots[i].slot_id == r.slots[i].slot_id);
        assert(r2.slots[j].slot_id == r.slots[j].slot_id);
    }
    assert forall|i: int| 0 <= i < r2.worktrees.len() implies has_slot(
        r2.slots,
        (#[trigger] r2.worktrees[i]).slot_id,
    ) by {
        assert(has_slot(r.slots, r.worktrees[i].slot_id));
    }
    assert forall|i: int| 0 <= i < r2.slots.len() implies has_entry(
        r2.worktrees,
        (#[trigger] r2.slots[i]).slot_id,
    ) by {
        assert(r2.slots[i].slot_id == r.slots[i].slot_id);
        assert(has_entry(r.worktrees, r.slots[i].slot_id));
    }
}

/// Registering an unknown identity keeps the registry well formed.
pub proof fn lemma_wf_register(r: RegistryV, entry: EntryV)
    requires
        wf(r),
        !has_entry(r.worktrees, entry.slot_id),
    ensures
        wf(register_spec(r, entry)),
{
    let r2 = register_spec(r, entry);
    let n: int = r.worktrees.len() as int;
    let m: int = r.slots.len() as int;
    assert(!has_slot(r.slots, entry.slot_id));
    assert forall|i: int, j: int|
        0 <= i < j < r2.worktrees.len() implies (#[trigger] r2.worktrees[i]).slot_id
        != (#[trigger] r2.worktrees[j]).slot_id by {
        if j == n {
            assert(r2.worktrees[i] == r.worktrees[i]);
            if r.worktrees[i].slot_id == entry.slot_id {
                assert(has_entry(r.worktrees, entry.slot_id));
            }
        }
    }
    assert forall|i: int, j: int|
        0 <= i < j < r2.slots.len() implies (#[trigger] r2.slots[i]).slot_id
        != (#[trigger] r2.slots[j]).slot_id by {
        if j == m {
            assert(r2.slots[i] == r.slots[i]);
            if r.slots[i].slot_id == entry.slot_id {
                assert(has_slot(r.slots, entry.slot_id));
            }
        }
    }
    assert forall|i: int| 0 <= i < r2.worktrees.len() implies has_slot(
        r2.slots,
        (#[trigger] r2.worktrees[i]).slot_id,
    ) by {
        if i < n {
            let id = r.worktrees[i].slot_id;
            assert(has_slot(r.slots, id));
            let k = choose|k: int| 0 <= k < r.slots.len() && r.slots[k].slot_id == id;
            assert(r2.slots[k].slot_id == id);
        } else {
            assert(r2.slots[m].slot_id == entry.slot_id);
        }
    }
    assert forall|i: int| 0 <= i < r2.slots.len() implies has_entry(
        r2.worktrees,
        (#[trigger] r2.slots[i]).slot_id,
    ) by {
        if i < m {
            let id = r.slots[i].slot_id;
            assert(has_entry(r.worktrees, id));
            let k = choose|k: int| 0 <= k < r.worktrees.len() && r.worktrees[k].slot_id == id;
            assert(r2.worktrees[k].slot_id == id);
        } else {
            assert(r2.worktrees[n].slot_id == entry.slot_id);
        }
    }
    assert forall|i: int| 0 <= i < r2.slots.len() implies slot_wf(
        r2.active_slot_id,
        #[trigger] r2.slots[i],
    ) by {
        if i < m {
            assert(slot_wf(r.active_slot_id, r.slots[i]));
        } else {
            match r.active_slot_id {
                Some(a) => {
                    if a == entry.slot_id {
                        assert(has_entry(r.worktrees, a));
                    }
                },
                None => {},
            }
        }
    }
    match r2.active_slot_id {
        Some(a) => {
            assert(has_entry(r.worktrees, a));
            let k = choose|k: int| 0 <= k < r.worktrees.len() && r.worktrees[k].slot_id == a;
            assert(r2.worktrees[k].slot_id == a);
        },
        None => {},
    }
}

/// What filtering keeps: every kept element comes from the original
/// sequence and satisfies the predicate, every original element satisfying
/// the predicate is kept, and distinct keys stay distinct.
pub proof fn lemma_filter_keyed<A>(s: Seq<A>, key: spec_fn(A) -> Seq<char>, p: spec_fn(A) -> bool)
    requires
        forall|i: int, j: int| 0 <= i < j < s.len() ==> key(#[trigger] s[i]) != key(#[trigger] s[j]),
    ensures
        forall|x: A| #[trigger] s.filter(p).contains(x) ==> s.contains(x) && p(x),
        forall|x: A| s.contains(x) && p(x) ==> #[trigger] s.filter(p).contains(x),
        forall|i: int, j: int|
            0 <= i < j < s.filter(p).len() ==> key(#[trigger] s.filter(p)[i]) != key(
                #[trigger] s.filter(p)[j],
            ),
    decreases s.len(),
{
    reveal(Seq::filter);
    if s.len() == 0 {
    } else {
        let pre = s.drop_last();
        assert forall|i: int, j: int|
            0 <= i < j < pre.len() implies key(#[trigger] pre[i]) != key(#[trigger] pre[j]) by {
            assert(pre[i] == s[i] && pre[j] == s[j]);
        }
        lemma_filter_keyed(pre, key, p);
        let f = s.filter(p);
        let fp = pre.filter(p);
        assert forall|x: A| #[trigger] f.contains(x) implies s.contains(x) && p(x) by {
            if p(s.last()) && x == s.last() {
                assert(s[s.len() - 1] == x);
            } else {
                let i = choose|i: int| 0 <= i < f.len() && f[i] == x;
                if i < fp.len() {
                    assert(fp.contains(x));
                    let k = choose|k: int| 0 <= k < pre.len() && pre[k] == x;
                    assert(s[k] == x);
                } else {
                    assert(x == s.last());
                    assert(s[s.len() - 1] == x);
                }
            }
        }
        assert forall|x: A| s.contains(x) && p(x) implies #[trigger] f.contains(x) by {
            let i = choose|i: int| 0 <= i < s.len() && s[i] == x;
            if i < s.len() - 1 {
                assert(pre[i] == x);
                assert(fp.contains(x));
                let k = choose|k: int| 0 <= k < fp.len() && fp[k] == x;
                assert(f[k] == x);
            } else {
                assert(p(s.last()));
                assert(f[f.len() - 1] == x);
            }
        }
        assert forall|i: int, j: int|
            0 <= i < j < f.len() implies key(#[trigger] f[i]) != key(#[trigger] f[j]) by {
            if j < fp.len() {
                assert(f[i] == fp[i] && f[j] == fp[j]);
            } else {
                assert(p(s.last()) && j == fp.len() && f[j] == s.last());
                assert(f[i] == fp[i]);
                assert(fp.contains(fp[i]));
                assert(pre.contains(fp[i]));
                let k = choose|k: int| 0 <= k < pre.len() && pre[k] == fp[i];
                assert(s[k] == fp[i]);
                assert(key(s[k]) != key(s[s.len() - 1]));
            }
        }
    }
}

/// Filtering a prefix grows one element at a time.
pub proof fn lemma_filter_take_step<A>(s: Seq<A>, p: spec_fn(A) -> bool, i: int)
    requires
        0 <= i < s.len(),
    ensures
        s.take(i + 1).filter(p) == if p(s[i]) {
            s.take(i).filter(p).push(s[i])
        } else {
            s.take(i).filter(p)
        },
{
    reveal(Seq::filter);
    let tk = s.take(i + 1);
    assert(tk.drop_last() =~= s.take(i));
    assert(tk.last() == s[i]);
}

/// Removing a non-active identity keeps the registry well formed.
pub proof fn lemma_wf_remove(r: RegistryV, id: Seq<char>)
    requires
        wf(r),
    ensures
        wf(remove_spec(r, id)),
{
    if r.active_slot_id == Some(id) {
    } else {
        let keep = |id2: Seq<char>| id2 != id;
        let r2 = remove_spec(r, id);
        assert(r2.worktrees == r.worktrees.filter(|e: EntryV| keep(e.slot_id))) by {
            assert((|e: EntryV| e.slot_id != id) == (|e: EntryV| keep(e.slot_id)));
        }
        assert(r2.slots == r.slots.filter(|s: SlotV| keep(s.slot_id))) by {
            assert((|s: SlotV| s.slot_id != id) == (|s: SlotV| keep(s.slot_id)));
        }
        lemma_wf_filter_by_id(r, keep, r2);
    }
}

/// Path validation keeps the registry well formed.
pub proof fn lemma_wf_validate(r: RegistryV, paths: Seq<Seq<char>>)
    requires
        wf(r),
    ensures
        wf(validate_spec(r, paths)),
{
    let pk = |e: EntryV| validate_keep(r.active_slot_id, paths, e);
    let kept = r.worktrees.filter(pk);
    let ps = |s: SlotV| has_entry(kept, s.slot_id);
    let ke = |e: EntryV| e.slot_id;
    let ks = |s: SlotV| s.slot_id;
    lemma_filter_keyed(r.worktrees, ke, pk);
    lemma_filter_keyed(r.slots, ks, ps);
    let r2 = validate_spec(r, paths);
    assert forall|i: int, j: int|
        0 <= i < j < r2.worktrees.len() implies (#[trigger] r2.worktrees[i]).slot_id
        != (#[trigger] r2.worktrees[j]).slot_id by {
        assert(ke(r2.worktrees[i]) != ke(r2.worktrees[j]));
    }
    assert forall|i: int, j: int|
        0 <= i < j < r2.slots.len() implies (#[trigger] r2.slots[i]).slot_id
        != (#[trigger] r2.slots[j]).slot_id by {
        assert(ks(r2.slots[i]) != ks(r2.slots[j]));
    }
    assert forall|i: int| 0 <= i < r2.worktrees.len() implies has_slot(
        r2.slots,
        (#[trigger] r2.worktrees[i]).slot_id,
    ) by {
        let e = r2.worktrees[i];
        assert(kept.contains(e));
        assert(r.worktrees.contains(e));
        assert(has_slot(r.slots, e.slot_id));
        let k = choose|k: int| 0 <= k < r.slots.len() && r.slots[k].slot_id == e.slot_id;
        assert(has_entry(kept, r.slots[k].slot_id));
        assert(r.slots.contains(r.slots[k]) && ps(r.slots[k]));
        assert(r2.slots.contains(r.slots[k]));
        let m = choose|m: int| 0 <= m < r2.slots.len() && r2.slots[m] == r.slots[k];
        assert(r2.slots[m].slot_id == e.slot_id);
    }
    assert forall|i: int| 0 <= i < r2.slots.len() implies has_entry(
        r2.worktrees,
        (#[trigger] r2.slots[i]).slot_id,
    ) by {
        assert(r2.slots.contains(r2.slots[i]));
        assert(ps(r2.slots[i]));
    }
    assert forall|i: int| 0 <= i < r2.slots.len() implies slot_wf(
        r2.active_slot_id,
        #[trigger] r2.slots[i],
    ) by {
        let x = r2.slots[i];
        assert(r2.slots.contains(x));
        assert(r.slots.contains(x));
        let k = choose|k: int| 0 <= k < r.slots.len() && r.slots[k] == x;
        assert(slot_wf(r.active_slot_id, r.slots[k]));
    }
    match r2.active_slot_id {
        Some(a) => {
            assert(has_entry(r.worktrees, a));
            let k = choose|k: int| 0 <= k < r.worktrees.len() && r.worktrees[k].slot_id == a;
            assert(pk(r.worktrees[k]));
            assert(r.worktrees.contains(r.worktrees[k]));
            assert(kept.contains(r.worktrees[k]));
            let m = choose|m: int| 0 <= m < kept.len() && kept[m] == r.worktrees[k];
            assert(kept[m].slot_id == a);
        },
        None => {},
    }
}

/// Activation keeps the registry well formed, whatever state it finds the
/// target in.
pub proof fn lemma_wf_activate(r: RegistryV, id: Seq<char>, now: int)
    requires
        wf(r),
    ensures
        wf(activate_spec(r, id, now)),
{
    let r1 = cache_active_spec(r, now);
    let r2 = ensure_registered_spec(r1, id, now);
    let r3 = load_slot_spec(r2, id);
    let r4 = touch_entry_spec(r3, id, now);

    // Step 1: under well-formedness, an active identity always marks an
    // active slot, so the caching branch runs exactly when there is an
    // active identity.
    match r.active_slot_id {
        Some(old_a) => {
            assert(has_entry(r.worktrees, old_a));
            let k = choose|k: int| 0 <= k < r.worktrees.len() && r.worktrees[k].slot_id == old_a;
            assert(has_slot(r.slots, old_a));
            lemma_slot_idx(r.slots, old_a);
            let si = slot_idx(r.slots, old_a);
            assert(slot_wf(r.active_slot_id, r.slots[si]));
            assert(r.slots[si].state == SlotState::Active);
        },
        None => {},
    }
    // After step 1 no slot is active, identities are unchanged, and every
    // slot still pairs its handle and deadline with its state.
    assert(r1.worktrees == r.worktrees);
    assert(r1.active_slot_id == r.active_slot_id);
    assert(r1.slots.len() == r.slots.len());
    assert forall|i: int| 0 <= i < r1.slots.len() implies (#[trigger] r1.slots[i]).slot_id
        == r.slots[i].slot_id by {}
    assert forall|i: int| 0 <= i < r1.slots.len() implies (#[trigger] r1.slots[i]).state
        != SlotState::Active by {
        assert(slot_wf(r.active_slot_id, r.slots[i]));
    }
    assert forall|i: int| 0 <= i < r1.slots.len() implies ((#[trigger] r1.slots[i]).project
        is Some <==> r1.slots[i].state != SlotState::Unloaded) && (r1.slots[i].cleanup_at
        is Some <==> r1.slots[i].state == SlotState::Cached) by {
        assert(slot_wf(r.active_slot_id, r.slots[i]));
    }
    lemma_same_ids_has_slot(r.slots, r1.slots);

    // Step 2: where the identity is unknown, an entry and an unloaded slot
    // are pushed together.
    lemma_entry_idx(r1.worktrees, id);
    lemma_slot_idx(r1.slots, id);
    if has_entry(r1.worktrees, id) {
        assert(r2 == r1);
        assert(has_slot(r.slots, id));
        assert(has_slot(r1.slots, id));
    } else {
        if has_slot(r1.slots, id) {
            assert(has_slot(r.slots, id));
            let k = choose|k: int| 0 <= k < r.slots.len() && r.slots[k].slot_id == id;
            assert(has_entry(r.worktrees, r.slots[k].slot_id));
            assert(false);
        }
    }
    assert(r2.worktrees.len() == r2.slots.len() - r1.slots.len() + r1.worktrees.len());
    lemma_slot_idx(r2.slots, id);
    assert(has_slot(r2.slots, id)) by {
        if !has_entry(r1.worktrees, id) {
            assert(r2.slots[r1.slots.len() as int].slot_id == id);
        }
    }
    let si3 = slot_idx(r2.slots, id);
    assert(0 <= si3 < r2.slots.len() && r2.slots[si3].slot_id == id);

    // Entries and slots list exactly the same identities in r2.
    assert forall|i: int| 0 <= i < r2.worktrees.len() implies has_slot(
        r2.slots,
        (#[trigger] r2.worktrees[i]).slot_id,
    ) by {
        if i < r1.worktrees.len() {
            assert(has_slot(r.slots, r.worktrees[i].slot_id));
            let k = choose|k: int|
                0 <= k < r1.slots.len() && r1.slots[k].slot_id == r.worktrees[i].slot_id;
            assert(r2.slots[k].slot_id == r.worktrees[i].slot_id);
        } else {
            assert(r2.slots[si3].slot_id == id);
        }
    }
    assert forall|i: int| 0 <= i < r2.slots.len() implies has_entry(
        r2.worktrees,
        (#[trigger] r2.slots[i]).slot_id,
    ) by {
        if i < r1.slots.len() {
            assert(has_entry(r.worktrees, r.slots[i].slot_id));
            let k = choose|k: int|
                0 <= k < r1.worktrees.len() && r1.worktrees[k].slot_id == r1.slots[i].slot_id;
            assert(r2.worktrees[k].slot_id == r1.slots[i].slot_id);
        } else {
            assert(r2.worktrees[r1.worktrees.len() as int].slot_id == id);
        }
    }
    // Identities stay unique in r2.
    assert forall|i: int, j: int|
        0 <= i < j < r2.worktrees.len() implies (#[trigger] r2.worktrees[i]).slot_id
        != (#[trigger] r2.worktrees[j]).slot_id by {
        if j == r1.worktrees.len() {
            if r1.worktrees[i].slot_id == id {
                assert(has_entry(r1.worktrees, id));
            }
        }
    }
    assert forall|i: int, j: int|
        0 <= i < j < r2.slots.len() implies (#[trigger] r2.slots[i]).slot_id
        != (#[trigger] r2.slots[j]).slot_id by {
        if j == r1.slots.len() {
            if r1.slots[i].slot_id == id {
                assert(has_slot(r1.slots, id));
            }
        }
    }

    // Step 3 activates exactly the slot at si3; step 4 touches only entry
    // fields.  Check every well-formedness conjunct of the final state.
    assert(r3.slots == r2.slots.update(si3, r3.slots[si3]));
    assert(r4.slots == r3.slots);
    assert(r4.active_slot_id == Some(id));
    lemma_entry_idx(r3.worktrees, id);
    assert(r4.worktrees.len() == r2.worktrees.len());
    assert forall|i: int| 0 <= i < r4.worktrees.len() implies (#[trigger] r4.worktrees[i]).slot_id
        == r2.worktrees[i].slot_id by {}
    assert forall|i: int, j: int|
        0 <= i < j < r4.worktrees.len() implies (#[trigger] r4.worktrees[i]).slot_id
        != (#[trigger] r4.worktrees[j]).slot_id by {
        assert(r2.worktrees[i].slot_id != r2.worktrees[j].slot_id);
    }
    assert forall|i: int, j: int|
        0 <= i < j < r4.slots.len() implies (#[trigger] r4.slots[i]).slot_id
        != (#[trigger] r4.slots[j]).slot_id by {
        assert(r2.slots[i].slot_id != r2.slots[j].slot_id);
    }
    lemma_same_ids_has_entry(r2.worktrees, r4.worktrees);
    lemma_same_ids_has_slot(r2.slots, r4.slots);
    assert forall|i: int| 0 <= i < r4.worktrees.len() implies has_slot(
        r4.slots,
        (#[trigger] r4.worktrees[i]).slot_id,
    ) by {
        assert(has_slot(r2.slots, r2.worktrees[i].slot_id));
    }
    assert forall|i: int| 0 <= i < r4.slots.len() implies has_entry(
        r4.worktrees,
        (#[trigger] r4.slots[i]).slot_id,
    ) by {
        assert(has_entry(r2.worktrees, r2.slots[i].slot_id));
    }
    assert forall|i: int| 0 <= i < r4.slots.len() implies slot_wf(
        r4.active_slot_id,
        #[trigger] r4.slots[i],
    ) by {
        if i == si3 {
            assert(r4.slots[i].state == SlotState::Active);
            assert(r4.slots[i].slot_id == id);
            assert(r4.slots[i].project is Some);
            assert(r4.slots[i].cleanup_at is None);
        } else {
            assert(r4.slots[i] == r2.slots[i]);
            assert(r2.slots[i].slot_id != id);
            if i < r1.slots.len() {
                assert(r2.slots[i] == r1.slots[i]);
                assert(r1.slots[i].state != SlotState::Active);
            } else {
                assert(r2.slots[i] == new_slot_v(id, id));
                assert(false);
            }
        }
    }
    assert(has_entry(r4.worktrees, id)) by {
        assert(has_entry(r2.worktrees, id)) by {
            lemma_entry_idx(r2.worktrees, id);
            if !has_entry(r1.worktrees, id) {
                assert(r2.worktrees[r1.worktrees.len() as int].slot_id == id);
            }
        }
    }
    assert(wf(r4));
}

/// A fired eviction keeps the registry well formed.
pub proof fn lemma_wf_cleanup(r: RegistryV, id: Seq<char>)
    requires
        wf(r),
    ensures
        wf(cleanup_spec(r, id)),
{
    lemma_slot_idx(r.slots, id);
    let si = slot_idx(r.slots, id);
    if si >= 0 && r.slots[si].state == SlotState::Cached {
        let r2 = cleanup_spec(r, id);
        assert forall|k: int| 0 <= k < r2.slots.len() implies slot_wf(
            r2.active_slot_id,
            #[trigger] r2.slots[k],
        ) by {
            assert(slot_wf(r.active_slot_id, r.slots[k]));
        }
        lemma_wf_slots_rewrite(r, r2);
    }
}

/// Merging never changes the active identity or the repository fields.
pub proof fn lemma_merge_fields(r: RegistryV, scans: Seq<ScanV>, now: int)
    ensures
        merge_spec(r, scans, now).active_slot_id == r.active_slot_id,
        merge_spec(r, scans, now).repo_root_path == r.repo_root_path,
        merge_spec(r, scans, now).repo_identity_path == r.repo_identity_path,
        merge_spec(r, scans, now).is_git_repo == r.is_git_repo,
    decreases scans.len(),
{
    if scans.len() != 0 {
        lemma_merge_fields(merge_one_spec(r, scans[0], now), scans.drop_first(), now);
    }
}

/// Merging distributes over appending one more scan result at the end.
pub proof fn lemma_merge_spec_snoc(r: RegistryV, scans: Seq<ScanV>, sc: ScanV, now: int)
    ensures
        merge_spec(r, scans.push(sc), now) == merge_one_spec(merge_spec(r, scans, now), sc, now),
    decreases scans.len(),
{
    if scans.len() == 0 {
        assert(scans.push(sc)[0] == sc);
        assert(scans.push(sc).drop_first() =~= scans);
        assert(merge_spec(r, scans.push(sc), now) == merge_spec(merge_one_spec(r, sc, now), scans, now));
    } else {
        assert(scans.push(sc)[0] == scans[0]);
        assert(scans.push(sc).drop_first() =~= scans.drop_first().push(sc));
        lemma_merge_spec_snoc(merge_one_spec(r, scans[0], now), scans.drop_first(), sc, now);
    }
}

/// Merging one scan result keeps the registry well formed.
pub proof fn lemma_wf_merge_one(r: RegistryV, sc: ScanV, now: int)
    requires
        wf(r),
    ensures
        wf(merge_one_spec(r, sc, now)),
{
    let id = sc.worktree_path;
    lemma_entry_idx(r.worktrees, id);
    if entry_idx(r.worktrees, id) >= 0 {
        lemma_wf_entries_rewrite(r, merge_one_spec(r, sc, now));
    } else {
        let e = new_entry_v(id, sc.worktree_path, sc.branch_name, now);
        assert(merge_one_spec(r, sc, now) =~= register_spec(r, e));
        lemma_wf_register(r, e);
    }
}

pub proof fn lemma_wf_merge(r: RegistryV, scans: Seq<ScanV>, now: int)
    requires
        wf(r),
    ensures
        wf(merge_spec(r, scans, now)),
    decreases scans.len(),
{
    if scans.len() != 0 {
        lemma_wf_merge_one(r, scans[0], now);
        lemma_wf_merge(merge_one_spec(r, scans[0], now), scans.drop_first(), now);
    }
}

/// Filtering entries and slots by one and the same predicate on their
/// identity keeps the registry well formed, as long as the active identity
/// is kept.
pub proof fn lemma_wf_filter_by_id(r: RegistryV, keep: spec_fn(Seq<char>) -> bool, r2: RegistryV)
    requires
        wf(r),
        r2.worktrees == r.worktrees.filter(|e: EntryV| keep(e.slot_id)),
        r2.slots == r.slots.filter(|s: SlotV| keep(s.slot_id)),
        r2.active_slot_id == r.active_slot_id,
        match r.active_slot_id {
            Some(a) => keep(a),
            None => true,
        },
    ensures
        wf(r2),
{
    let pe = |e: EntryV| keep(e.slot_id);
    let ps = |s: SlotV| keep(s.slot_id);
    let ke = |e: EntryV| e.slot_id;
    let ks = |s: SlotV| s.slot_id;
    lemma_filter_keyed(r.worktrees, ke, pe);
    lemma_filter_keyed(r.slots, ks, ps);
    assert forall|i: int, j: int|
        0 <= i < j < r2.worktrees.len() implies (#[trigger] r2.worktrees[i]).slot_id
        != (#[trigger] r2.worktrees[j]).slot_id by {
        assert(ke(r2.worktrees[i]) != ke(r2.worktrees[j]));
    }
    assert forall|i: int, j: int|
        0 <= i < j < r2.slots.len() implies (#[trigger] r2.slots[i]).slot_id
        != (#[trigger] r2.slots[j]).slot_id by {
        assert(ks(r2.slots[i]) != ks(r2.slots[j]));
    }
    assert forall|i: int| 0 <= i < r2.worktrees.len() implies has_slot(
        r2.slots,
        (#[trigger] r2.worktrees[i]).slot_id,
    ) by {
        let e = r2.worktrees[i];
        assert(r2.worktrees.contains(e));
        assert(r.worktrees.contains(e) && pe(e));
        assert(has_slot(r.slots, e.slot_id));
        let k = choose|k: int| 0 <= k < r.slots.len() && r.slots[k].slot_id == e.slot_id;
        assert(r.slots.contains(r.slots[k]) && ps(r.slots[k]));
        assert(r2.slots.contains(r.slots[k]));
        let m = choose|m: int| 0 <= m < r2.slots.len() && r2.slots[m] == r.slots[k];
        assert(r2.slots[m].slot_id == e.slot_id);
    }
    assert forall|i: int| 0 <= i < r2.slots.len() implies has_entry(
        r2.worktrees,
        (#[trigger] r2.slots[i]).slot_id,
    ) by {
        let x = r2.slots[i];
        assert(r2.slots.contains(x));
        assert(r.slots.contains(x) && ps(x));
        assert(has_entry(r.worktrees, x.slot_id));
        let k = choose|k: int| 0 <= k < r.worktrees.len() && r.worktrees[k].slot_id == x.slot_id;
        assert(r.worktrees.contains(r.worktrees[k]) && pe(r.worktrees[k]));
        assert(r2.worktrees.contains(r.worktrees[k]));
        let m = choose|m: int| 0 <= m < r2.worktrees.len() && r2.worktrees[m] == r.worktrees[k];
        assert(r2.worktrees[m].slot_id == x.slot_id);
    }
    assert forall|i: int| 0 <= i < r2.slots.len() implies slot_wf(
        r2.active_slot_id,
        #[trigger] r2.slots[i],
    ) by {
        let x = r2.slots[i];
        assert(r2.slots.contains(x));
        assert(r.slots.contains(x));
        let k = choose|k: int| 0 <= k < r.slots.len() && r.slots[k] == x;
        assert(slot_wf(r.active_slot_id, r.slots[k]));
    }
    match r2.active_slot_id {
        Some(a) => {
            assert(has_entry(r.worktrees, a));
            let k = choose|k: int| 0 <= k < r.worktrees.len() && r.worktrees[k].slot_id == a;
            assert(pe(r.worktrees[k]));
            assert(r.worktrees.contains(r.worktrees[k]));
            assert(r2.worktrees.contains(r.worktrees[k]));
            let m = choose|m: int|
                0 <= m < r2.worktrees.len() && r2.worktrees[m] == r.worktrees[k];
            assert(r2.worktrees[m].slot_id == a);
        },
        None => {},
    }
}

pub proof fn lemma_wf_retain(r: RegistryV, scans: Seq<ScanV>)
    requires
        wf(r),
    ensures
        wf(retain_spec(r, scans)),
{
    let keep = |id: Seq<char>| retain_keep(r.active_slot_id, scans, id);
    assert(retain_spec(r, scans).worktrees == r.worktrees.filter(
        |e: EntryV| keep(e.slot_id),
    )) by {
        assert((|e: EntryV| retain_keep(r.active_slot_id, scans, e.slot_id)) == (|e: EntryV|
            keep(e.slot_id)));
    }
    assert(retain_spec(r, scans).slots == r.slots.filter(|s: SlotV| keep(s.slot_id))) by {
        assert((|s: SlotV| retain_keep(r.active_slot_id, scans, s.slot_id)) == (|s: SlotV|
            keep(s.slot_id)));
    }
    lemma_wf_filter_by_id(r, keep, retain_spec(r, scans));
}

/// A permutation of entries with pairwise distinct identities again has
/// pairwise distinct identities, and registers the same identities.
pub proof fn lemma_permutation_unique_ids(a: Seq<EntryV>, b: Seq<EntryV>)
    requires
        a.to_multiset() == b.to_multiset(),
        forall|i: int, j: int|
            0 <= i < j < a.len() ==> (#[trigger] a[i]).slot_id != (#[trigger] a[j]).slot_id,
    ensures
        forall|i: int, j: int|
            0 <= i < j < b.len() ==> (#[trigger] b[i]).slot_id != (#[trigger] b[j]).slot_id,
        forall|id: Seq<char>| #[trigger] has_entry(a, id) == has_entry(b, id),
{
    broadcast use vstd::seq_lib::group_to_multiset_ensures;
    broadcast use vstd::multiset::group_multiset_axioms;

    assert forall|i: int, j: int|
        0 <= i < j < b.len() implies (#[trigger] b[i]).slot_id != (#[trigger] b[j]).slot_id by {
        if b[i].slot_id == b[j].slot_id {
            if b[i] == b[j] {
                let x = b[i];
                assert(b.remove(i).to_multiset() =~= b.to_multiset().remove(x));
                assert(b.remove(i)[j - 1] == x);
                assert(b.remove(i).contains(x));
                assert(b.remove(i).to_multiset().count(x) > 0);
                assert(b.to_multiset().count(x) >= 2);
                assert(a.to_multiset().count(x) >= 2);
                assert(a.contains(x));
                let k1 = choose|k1: int| 0 <= k1 < a.len() && a[k1] == x;
                assert(a.remove(k1).to_multiset() =~= a.to_multiset().remove(x));
                assert(a.remove(k1).to_multiset().count(x) > 0);
                assert(a.remove(k1).contains(x));
                let k2 = choose|k2: int| 0 <= k2 < a.remove(k1).len() && a.remove(k1)[k2] == x;
                if k2 < k1 {
                    assert(a[k2] == x);
                    assert(a[k2].slot_id == a[k1].slot_id);
                } else {
                    assert(a[k2 + 1] == x);
                    assert(a[k1].slot_id == a[k2 + 1].slot_id);
                }
            } else {
                assert(b.contains(b[i]));
                assert(b.to_multiset().count(b[i]) > 0);
                assert(a.to_multiset().count(b[i]) > 0);
                assert(a.contains(b[i]));
                assert(b.contains(b[j]));
                assert(b.to_multiset().count(b[j]) > 0);
                assert(a.to_multiset().count(b[j]) > 0);
                assert(a.contains(b[j]));
                let k1 = choose|k1: int| 0 <= k1 < a.len() && a[k1] == b[i];
                let k2 = choose|k2: int| 0 <= k2 < a.len() && a[k2] == b[j];
                assert(k1 != k2);
                assert(a[k1].slot_id == a[k2].slot_id);
            }
        }
    }
    assert forall|id: Seq<char>| #[trigger] has_entry(a, id) == has_entry(b, id) by {
        if has_entry(a, id) {
            let i = choose|i: int| 0 <= i < a.len() && a[i].slot_id == id;
            assert(a.contains(a[i]));
            assert(a.to_multiset().count(a[i]) > 0);
            assert(b.to_multiset().count(a[i]) > 0);
            assert(b.contains(a[i]));
            let k = choose|k: int| 0 <= k < b.len() && b[k] == a[i];
            assert(b[k].slot_id == id);
        }
        if has_entry(b, id) {
            let i = choose|i: int| 0 <= i < b.len() && b[i].slot_id == id;
            assert(b.contains(b[i]));
            assert(b.to_multiset().count(b[i]) > 0);
            assert(a.to_multiset().count(b[i]) > 0);
            assert(a.contains(b[i]));
            let k = choose|k: int| 0 <= k < a.len() && a[k] == b[i];
            assert(a[k].slot_id == id);
        }
    }
}

/// Re-sorting the entries keeps the registry well formed.
pub proof fn lemma_wf_sort(r: RegistryV)
    requires
        wf(r),
    ensures
        wf(sort_spec(r)),
{
    let leq = entry_leq(r.active_slot_id);
    lemma_entry_leq_order(r.active_slot_id);
    crate::sorting::lemma_insertion_sort_ensures(r.worktrees, leq);
    let r2 = sort_spec(r);
    lemma_permutation_unique_ids(r.worktrees, r2.worktrees);
    assert forall|i: int| 0 <= i < r2.worktrees.len() implies has_slot(
        r2.slots,
        (#[trigger] r2.worktrees[i]).slot_id,
    ) by {
        assert(has_entry(r2.worktrees, r2.worktrees[i].slot_id));
        assert(has_entry(r.worktrees, r2.worktrees[i].slot_id));
        let k = choose|k: int|
            0 <= k < r.worktrees.len() && r.worktrees[k].slot_id == r2.worktrees[i].slot_id;
        assert(has_slot(r.slots, r.worktrees[k].slot_id));
    }
    assert forall|i: int| 0 <= i < r2.slots.len() implies has_entry(
        r2.worktrees,
        (#[trigger] r2.slots[i]).slot_id,
    ) by {
        assert(has_entry(r.worktrees, r.slots[i].slot_id));
    }
    match r2.active_slot_id {
        Some(a) => {
            assert(has_entry(r.worktrees, a));
        },
        None => {},
    }
}

/// Reconciliation keeps the registry well formed.
pub proof fn lemma_wf_reconcile(r: RegistryV, scans: Seq<ScanV>, now: int)
    requires
        wf(r),
    ensures
        wf(reconcile_spec(r, scans, now)),
{
    lemma_wf_merge(r, scans, now);
    lemma_wf_retain(merge_spec(r, scans, now), scans);
    lemma_wf_sort(retain_spec(merge_spec(r, scans, now), scans));
}

// ---------------------------------------------------------------------------
// The registry
// ---------------------------------------------------------------------------

impl WorktreeRegistry {
    /// A fresh registry for one repository, bootstrapped at an explicit
    /// time: its root worktree is registered and active, with the handle
    /// built and no eviction pending.
    pub fn new_at(
        repo_root_path: String,
        repo_identity_path: String,
        is_git_repo: bool,
        now: i64,
    ) -> (r: Self)
        ensures
            r@ == new_spec(repo_root_path@, repo_identity_path@, is_git_repo, now as int),
            wf(r@),
    {
        let slot_id = WorktreeSlotId::from_worktree_path(repo_root_path.as_str());
        let branch: String = if is_git_repo {
            "(scanning...)".to_owned()
        } else {
            "(no git)".to_owned()
        };
        let entry = WorktreeEntry::new_at(slot_id.clone(), repo_root_path.clone(), branch, now);
        let mut worktrees: Vec<WorktreeEntry> = Vec::new();
        worktrees.push(entry);
        let mut slots: Vec<WorktreeSlot> = Vec::new();
        let handle = ProjectHandle { worktree_path: repo_root_path.clone() };
        slots.push(
            WorktreeSlot {
                slot_id: slot_id.clone(),
                worktree_path: repo_root_path.clone(),
                state: SlotState::Active,
                project: Some(handle),
                serialized: None,
                cleanup_at: None,
            },
        );
        let r = WorktreeRegistry {
            repo_identity_path,
            repo_root_path,
            worktrees,
            slots,
            active_slot_id: Some(slot_id),
            is_git_repo,
        };
        proof {
            let m = new_spec(r@.repo_root_path, r@.repo_identity_path, is_git_repo, now as int);
            assert(r@.worktrees =~= m.worktrees);
            assert(r@.slots =~= m.slots);
            assert(r@ =~= m);
            assert(r@.slots[0].slot_id == r@.repo_root_path);
            assert(has_slot(r@.slots, r@.worktrees[0].slot_id));
            assert(has_entry(r@.worktrees, r@.slots[0].slot_id));
            assert(slot_wf(r@.active_slot_id, r@.slots[0]));
        }
        r
    }

    /// A fresh registry bootstrapped at the current wall-clock time.
    pub fn new(repo_root_path: String, repo_identity_path: String, is_git_repo: bool) -> (r: Self)
        ensures
            exists|t: int|
                0 <= t && r@ == #[trigger] new_spec(
                    repo_root_path@,
                    repo_identity_path@,
                    is_git_repo,
                    t,
                ),
            wf(r@),
    {
        let now = now_timestamp();
        let r = Self::new_at(repo_root_path, repo_identity_path, is_git_repo, now);
        proof {
            assert(0 <= now as int && r@ == new_spec(
                repo_root_path@,
                repo_identity_path@,
                is_git_repo,
                now as int,
            ));
        }
        r
    }

    pub fn repo_identity_path(&self) -> (r: &String)
        ensures
            r@ == self@.repo_identity_path,
    {
        &self.repo_identity_path
    }

    pub fn repo_root_path(&self) -> (r: &String)
        ensures
            r@ == self@.repo_root_path,
    {
        &self.repo_root_path
    }

    pub fn is_git_repo(&self) -> (r: bool)
        ensures
            r == self@.is_git_repo,
    {
        self.is_git_repo
    }

    /// The entries, in presentation order.
    pub fn worktrees(&self) -> (r: &Vec<WorktreeEntry>)
        ensures
            r.deep_view() == self@.worktrees,
    {
        &self.worktrees
    }

    pub fn active_slot_id(&self) -> (r: Option<&WorktreeSlotId>)
        ensures
            match r {
                Some(id) => self@.active_slot_id == Some(id@),
                None => self@.active_slot_id is None,
            },
    {
        self.active_slot_id.as_ref()
    }

    /// The entry of the active worktree, if one is registered for it.
    pub fn active_worktree(&self) -> (r: Option<&WorktreeEntry>)
        ensures
            match r {
                Some(e) => {
                    &&& self@.active_slot_id == Some(e@.slot_id)
                    &&& entry_idx(self@.worktrees, e@.slot_id) >= 0
                    &&& e@ == self@.worktrees[entry_idx(self@.worktrees, e@.slot_id)]
                },
                None => match self@.active_slot_id {
                    Some(a) => !has_entry(self@.worktrees, a),
                    None => true,
                },
            },
    {
        match &self.active_slot_id {
            Some(id) => {
                proof {
                    lemma_entry_idx(self@.worktrees, id@);
                }
                match find_entry(&self.worktrees, id) {
                    Some(i) => Some(&self.worktrees[i]),
                    None => None,
                }
            },
            None => None,
        }
    }

    /// The slot registered under the given identity.
    pub fn get_slot(&self, slot_id: &WorktreeSlotId) -> (r: Option<&WorktreeSlot>)
        ensures
            match r {
                Some(s) => {
                    &&& slot_idx(self@.slots, slot_id@) >= 0
                    &&& s@ == self@.slots[slot_idx(self@.slots, slot_id@)]
                },
                None => !has_slot(self@.slots, slot_id@),
            },
    {
        proof {
            lemma_slot_idx(self@.slots, slot_id@);
        }
        match find_slot(&self.slots, slot_id) {
            Some(i) => Some(&self.slots[i]),
            None => None,
        }
    }

    /// Pure metadata: record how many agent chats hang off a worktree.
    pub fn update_agent_chat_count(&mut self, slot_id: &WorktreeSlotId, count: usize)
        requires
            wf(old(self)@),
        ensures
            final(self)@ == update_chat_count_spec(old(self)@, slot_id@, count as int),
            wf(final(self)@),
    {
        let ghost r0 = self@;
        match find_entry(&self.worktrees, slot_id) {
            Some(i) => {
                self.worktrees[i].agent_chat_count = count;
                proof {
                    let r2 = update_chat_count_spec(r0, slot_id@, count as int);
                    assert(self@.worktrees =~= r2.worktrees);
                    assert(self@ =~= r2);
                    lemma_wf_entries_rewrite(r0, self@);
                }
            },
            None => {
                proof {
                    assert(self@ =~= update_chat_count_spec(r0, slot_id@, count as int));
                }
            },
        }
    }

    /// The fired eviction callback: re-validates that the slot is still
    /// cached, and only then drops the handle and unloads it.
    pub fn cleanup_cached_slot(&mut self, slot_id: &WorktreeSlotId)
        requires
            wf(old(self)@),
        ensures
            final(self)@ == cleanup_spec(old(self)@, slot_id@),
            wf(final(self)@),
    {
        let ghost r0 = self@;
        match find_slot(&self.slots, slot_id) {
            Some(i) => {
                if self.slots[i].state == SlotState::Cached {
                    self.slots[i].project = None;
                    self.slots[i].state = SlotState::Unloaded;
                    self.slots[i].cleanup_at = None;
                    proof {
                        let r2 = cleanup_spec(r0, slot_id@);
                        assert(self@.slots =~= r2.slots);
                        assert(self@ =~= r2);
                        assert forall|k: int| 0 <= k < self@.slots.len() implies slot_wf(
                            self@.active_slot_id,
                            #[trigger] self@.slots[k],
                        ) by {
                            assert(slot_wf(r0.active_slot_id, r0.slots[k]));
                        }
                        lemma_wf_slots_rewrite(r0, self@);
                    }
                } else {
                    proof {
                        assert(self@ =~= cleanup_spec(r0, slot_id@));
                    }
                }
            },
            None => {
                proof {
                    assert(self@ =~= cleanup_spec(r0, slot_id@));
                }
            },
        }
    }

    /// Step one of activation: demote the currently active slot, if any,
    /// to cached, and schedule its eviction.
    fn cache_active_step(&mut self, now: i64)
        ensures
            final(self)@ == cache_active_spec(old(self)@, now as int),
    {
        let ghost r0 = self@;
        let deadline = eviction_deadline_at(now);
        match &self.active_slot_id {
            Some(old_id) => {
                match find_slot(&self.slots, old_id) {
                    Some(i) => {
                        if self.slots[i].state == SlotState::Active {
                            self.slots[i].state = SlotState::Cached;
                            self.slots[i].cleanup_at = Some(deadline);
                            proof {
                                assert(self@.slots =~= cache_active_spec(r0, now as int).slots);
                                assert(self@ =~= cache_active_spec(r0, now as int));
                            }
                        } else {
                            proof {
                                assert(self@ =~= cache_active_spec(r0, now as int));
                            }
                        }
                    },
                    None => {
                        proof {
                            assert(self@ =~= cache_active_spec(r0, now as int));
                        }
                    },
                }
            },
            None => {
                proof {
                    assert(self@ =~= cache_active_spec(r0, now as int));
                }
            },
        }
    }

    /// Step two of activation: register a bare entry and slot for an
    /// identity seen for the first time.
    fn ensure_registered_step(&mut self, id: &WorktreeSlotId, now: i64)
        ensures
            final(self)@ == ensure_registered_spec(old(self)@, id@, now as int),
    {
        let ghost r0 = self@;
        proof {
            lemma_entry_idx(r0.worktrees, id@);
        }
        match find_entry(&self.worktrees, id) {
            Some(_) => {
                proof {
                    assert(self@ =~= ensure_registered_spec(r0, id@, now as int));
                }
            },
            None => {
                let branch: String = if self.is_git_repo {
                    "(scanning...)".to_owned()
                } else {
                    "(no git)".to_owned()
                };
                let entry = WorktreeEntry::new_at(id.clone(), id.0.clone(), branch, now);
                self.worktrees.push(entry);
                self.slots.push(WorktreeSlot::new(id.clone(), id.0.clone()));
                proof {
                    let r2 = ensure_registered_spec(r0, id@, now as int);
                    assert(self@.worktrees =~= r2.worktrees);
                    assert(self@.slots =~= r2.slots);
                    assert(self@ =~= r2);
                }
            },
        }
    }

    /// Step three of activation: cancel any pending eviction on the target
    /// slot, build its handle if it has none, and mark it active.
    fn load_slot_step(&mut self, id: &WorktreeSlotId)
        ensures
            final(self)@ == load_slot_spec(old(self)@, id@),
    {
        let ghost r0 = self@;
        match find_slot(&self.slots, id) {
            Some(i) => {
                if self.slots[i].project.is_none() {
                    let path = self.slots[i].worktree_path.clone();
                    self.slots[i].project = Some(ProjectHandle { worktree_path: path });
                }
                self.slots[i].state = SlotState::Active;
                self.slots[i].cleanup_at = None;
                self.active_slot_id = Some(id.clone());
                proof {
                    assert(self@.slots =~= load_slot_spec(r0, id@).slots);
                    assert(self@ =~= load_slot_spec(r0, id@));
                }
            },
            None => {
                self.active_slot_id = Some(id.clone());
                proof {
                    assert(self@ =~= load_slot_spec(r0, id@));
                }
            },
        }
    }

    /// Step four of activation: refresh the target entry's access time.
    fn touch_entry_step(&mut self, id: &WorktreeSlotId, now: i64)
        ensures
            final(self)@ == touch_entry_spec(old(self)@, id@, now as int),
    {
        let ghost r0 = self@;
        proof {
            lemma_entry_idx(r0.worktrees, id@);
        }
        match find_entry(&self.worktrees, id) {
            Some(i) => {
                self.worktrees[i].last_accessed = now;
                proof {
                    assert(self@.worktrees =~= touch_entry_spec(r0, id@, now as int).worktrees);
                    assert(self@ =~= touch_entry_spec(r0, id@, now as int));
                }
            },
            None => {
                proof {
                    assert(self@ =~= touch_entry_spec(r0, id@, now as int));
                }
            },
        }
    }

    /// Removal: the active worktree is protected and stays untouched; any
    /// other identity has its pending eviction dropped with the slot, the
    /// handle released, and entry and slot deleted together.  Removal of an
    /// unknown identity still reports the event, as a redundant no-op.
    pub fn remove_worktree(&mut self, slot_id: &WorktreeSlotId) -> (ev: Option<
        WorktreeRegistryEvent,
    >)
        requires
            wf(old(self)@),
        ensures
            final(self)@ == remove_spec(old(self)@, slot_id@),
            wf(final(self)@),
            match ev {
                Some(e) => old(self)@.active_slot_id != Some(slot_id@) && e@
                    == EventV::WorktreeRemoved(slot_id@),
                None => old(self)@.active_slot_id == Some(slot_id@),
            },
    {
        let ghost r0 = self@;
        let is_active = match &self.active_slot_id {
            Some(a) => a.0 == slot_id.0,
            None => false,
        };
        if is_active {
            proof {
                assert(self@ =~= remove_spec(r0, slot_id@));
            }
            return None;
        }
        let ghost pe = |e: EntryV| e.slot_id != slot_id@;
        let ghost ps = |s: SlotV| s.slot_id != slot_id@;
        let n = self.worktrees.len();
        let mut kept: Vec<WorktreeEntry> = Vec::new();
        let mut i: usize = 0;
        while i < n
            invariant
                i <= n,
                n == self.worktrees.len(),
                self@ == r0,
                r0.worktrees.len() == n,
                pe == (|e: EntryV| e.slot_id != slot_id@),
                kept.deep_view() == r0.worktrees.take(i as int).filter(pe),
            decreases n - i,
        {
            let ghost pre = kept.deep_view();
            if !(self.worktrees[i].slot_id.0 == slot_id.0) {
                kept.push(self.worktrees[i].clone());
                proof {
                    assert(kept.deep_view() =~= pre.push(r0.worktrees[i as int]));
                }
            }
            proof {
                lemma_filter_take_step(r0.worktrees, pe, i as int);
            }
            i = i + 1;
        }
        let mut old_slots: Vec<WorktreeSlot> = Vec::new();
        core::mem::swap(&mut self.slots, &mut old_slots);
        let ghost os = old_slots.deep_view();
        proof {
            assert(os == r0.slots);
            assert(os.skip(0) =~= os);
        }
        let m = old_slots.len();
        let mut kept_slots: Vec<WorktreeSlot> = Vec::new();
        let mut j: usize = 0;
        while j < m
            invariant
                j <= m,
                m == os.len(),
                old_slots.deep_view() == os.skip(j as int),
                old_slots.len() + j == m,
                ps == (|s: SlotV| s.slot_id != slot_id@),
                kept_slots.deep_view() == os.take(j as int).filter(ps),
            decreases m - j,
        {
            let ghost pre = kept_slots.deep_view();
            let ghost remaining = old_slots.deep_view();
            let ghost prevv = old_slots@;
            let slot = old_slots.remove(0);
            proof {
                assert(slot@ == remaining[0]);
                assert(remaining[0] == os[j as int]);
                assert(old_slots@ =~= prevv.skip(1));
                assert forall|k: int| 0 <= k < old_slots.deep_view().len() implies #[trigger] old_slots.deep_view()[k]
                    == os[j as int + 1 + k] by {
                    assert(old_slots@[k] == prevv[k + 1]);
                    assert(remaining[k + 1] == os.skip(j as int)[k + 1]);
                }
                assert(old_slots.deep_view() =~= os.skip(j as int + 1));
            }
            if !(slot.slot_id.0 == slot_id.0) {
                kept_slots.push(slot);
                proof {
                    assert(kept_slots.deep_view() =~= pre.push(os[j as int]));
                }
            }
            proof {
                lemma_filter_take_step(os, ps, j as int);
            }
            j = j + 1;
        }
        self.worktrees = kept;
        self.slots = kept_slots;
        proof {
            assert(r0.worktrees.take(n as int) =~= r0.worktrees);
            assert(r0.slots.take(m as int) =~= r0.slots);
            assert(self@ =~= remove_spec(r0, slot_id@));
            lemma_wf_remove(r0, slot_id@);
        }
        Some(WorktreeRegistryEvent::WorktreeRemoved(slot_id.clone()))
    }

    /// Drop every non-active entry whose worktree path is not among the
    /// paths that still exist, together with its slot, and report one
    /// removal notice per dropped entry.  The caller supplies the list of
    /// paths that exist; the registry itself never touches the disk.
    pub fn validate_worktree_paths(&mut self, existing_paths: &Vec<String>) -> (evs: Vec<
        WorktreeRegistryEvent,
    >)
        requires
            wf(old(self)@),
        ensures
            final(self)@ == validate_spec(old(self)@, existing_paths.deep_view()),
            wf(final(self)@),
            evs.deep_view() == validate_events(old(self)@, existing_paths.deep_view()),
    {
        let ghost r0 = self@;
        let ghost pathsv = existing_paths.deep_view();
        let ghost pk = |e: EntryV| validate_keep(r0.active_slot_id, pathsv, e);
        let ghost pd = |e: EntryV| !validate_keep(r0.active_slot_id, pathsv, e);
        let ghost fev = |e: EntryV| EventV::WorktreeRemoved(e.slot_id);
        let n = self.worktrees.len();
        let mut kept: Vec<WorktreeEntry> = Vec::new();
        let mut evs: Vec<WorktreeRegistryEvent> = Vec::new();
        let mut i: usize = 0;
        while i < n
            invariant
                i <= n,
                n == self.worktrees.len(),
                self@ == r0,
                r0.worktrees.len() == n,
                pathsv == existing_paths.deep_view(),
                pk == (|e: EntryV| validate_keep(r0.active_slot_id, pathsv, e)),
                pd == (|e: EntryV| !validate_keep(r0.active_slot_id, pathsv, e)),
                fev == (|e: EntryV| EventV::WorktreeRemoved(e.slot_id)),
                kept.deep_view() == r0.worktrees.take(i as int).filter(pk),
                evs.deep_view() == r0.worktrees.take(i as int).filter(pd).map_values(fev),
            decreases n - i,
        {
            let ghost pre = kept.deep_view();
            let ghost preev = evs.deep_view();
            let listed = path_listed_exec(existing_paths, &self.worktrees[i].worktree_path);
            let is_active = match &self.active_slot_id {
                Some(a) => a.0 == self.worktrees[i].slot_id.0,
                None => false,
            };
            if listed || is_active {
                kept.push(self.worktrees[i].clone());
                proof {
                    assert(pk(r0.worktrees[i as int]));
                    assert(kept.deep_view() =~= pre.push(r0.worktrees[i as int]));
                }
            } else {
                evs.push(WorktreeRegistryEvent::WorktreeRemoved(self.worktrees[i].slot_id.clone()));
                proof {
                    assert(pd(r0.worktrees[i as int]));
                    assert(evs.deep_view() =~= preev.push(fev(r0.worktrees[i as int])));
                    assert(r0.worktrees.take(i as int).filter(pd).push(
                        r0.worktrees[i as int],
                    ).map_values(fev) =~= preev.push(fev(r0.worktrees[i as int])));
                }
            }
            proof {
                lemma_filter_take_step(r0.worktrees, pk, i as int);
                lemma_filter_take_step(r0.worktrees, pd, i as int);
            }
            i = i + 1;
        }
        let ghost keptv = kept.deep_view();
        proof {
            assert(r0.worktrees.take(n as int) =~= r0.worktrees);
        }
        let ghost ps = |s: SlotV| has_entry(keptv, s.slot_id);
        let mut old_slots: Vec<WorktreeSlot> = Vec::new();
        core::mem::swap(&mut self.slots, &mut old_slots);
        let ghost os = old_slots.deep_view();
        proof {
            assert(os == r0.slots);
            assert(os.skip(0) =~= os);
        }
        let m = old_slots.len();
        let mut kept_slots: Vec<WorktreeSlot> = Vec::new();
        let mut j: usize = 0;
        while j < m
            invariant
                j <= m,
                m == os.len(),
                old_slots.deep_view() == os.skip(j as int),
                old_slots.len() + j == m,
                keptv == kept.deep_view(),
                ps == (|s: SlotV| has_entry(keptv, s.slot_id)),
                kept_slots.deep_view() == os.take(j as int).filter(ps),
            decreases m - j,
        {
            let ghost pre = kept_slots.deep_view();
            let ghost remaining = old_slots.deep_view();
            let ghost prevv = old_slots@;
            let slot = old_slots.remove(0);
            proof {
                assert(slot@ == remaining[0]);
                assert(remaining[0] == os[j as int]);
                assert(old_slots@ =~= prevv.skip(1));
                assert forall|k: int| 0 <= k < old_slots.deep_view().len() implies #[trigger] old_slots.deep_view()[k]
                    == os[j as int + 1 + k] by {
                    assert(old_slots@[k] == prevv[k + 1]);
                    assert(remaining[k + 1] == os.skip(j as int)[k + 1]);
                }
                assert(old_slots.deep_view() =~= os.skip(j as int + 1));
                lemma_entry_idx(keptv, slot@.slot_id);
            }
            let keep = match find_entry(&kept, &slot.slot_id) {
                Some(_) => true,
                None => false,
            };
            if keep {
                kept_slots.push(slot);
                proof {
                    assert(ps(os[j as int]));
                    assert(kept_slots.deep_view() =~= pre.push(os[j as int]));
                }
            } else {
                proof {
                    assert(!ps(os[j as int]));
                }
            }
            proof {
                lemma_filter_take_step(os, ps, j as int);
            }
            j = j + 1;
        }
        self.worktrees = kept;
        self.slots = kept_slots;
        proof {
            assert(os.take(m as int) =~= os);
            assert(self@ =~= validate_spec(r0, pathsv));
            assert(evs.deep_view() =~= validate_events(r0, pathsv));
            lemma_wf_validate(r0, pathsv);
        }
        evs
    }

    /// The central transition, at an explicit time: demote the previously
    /// active slot to cached with a fresh eviction deadline, register the
    /// target if unknown, cancel its pending eviction, make sure its
    /// handle is resident, mark it active, refresh its access time, and
    /// report the change of active identity.
    ///
    /// Activating the already-active identity only refreshes its access
    /// time and reports `old == new`.
    pub fn set_active_slot_at(&mut self, slot_id: WorktreeSlotId, now: i64) -> (ev:
        WorktreeRegistryEvent)
        requires
            wf(old(self)@),
        ensures
            final(self)@ == activate_spec(old(self)@, slot_id@, now as int),
            wf(final(self)@),
            ev@ == (EventV::ActiveSlotChanged {
                old_slot_id: old(self)@.active_slot_id,
                new_slot_id: slot_id@,
            }),
    {
        let ghost r0 = self@;
        let old_slot_id: Option<WorktreeSlotId> = match &self.active_slot_id {
            Some(x) => Some(x.clone()),
            None => None,
        };
        self.cache_active_step(now);
        self.ensure_registered_step(&slot_id, now);
        self.load_slot_step(&slot_id);
        self.touch_entry_step(&slot_id, now);
        proof {
            lemma_wf_activate(r0, slot_id@, now as int);
        }
        WorktreeRegistryEvent::ActiveSlotChanged { old_slot_id, new_slot_id: slot_id }
    }

    /// The central transition, stamped with the wall clock.
    pub fn set_active_slot(&mut self, slot_id: WorktreeSlotId) -> (ev: WorktreeRegistryEvent)
        requires
            wf(old(self)@),
        ensures
            exists|t: int|
                0 <= t && final(self)@ == #[trigger] activate_spec(old(self)@, slot_id@, t),
            wf(final(self)@),
            ev@ == (EventV::ActiveSlotChanged {
                old_slot_id: old(self)@.active_slot_id,
                new_slot_id: slot_id@,
            }),
    {
        let ghost r0 = self@;
        let now = now_timestamp();
        let ev = self.set_active_slot_at(slot_id, now);
        proof {
            assert(0 <= now as int && self@ == activate_spec(r0, ev@->new_slot_id, now as int));
        }
        ev
    }

    /// Record that the repository is a git repository after all: adopt the
    /// given identity path, and where git support was off, refresh the
    /// bootstrap entry's placeholder branch label.
    pub fn enable_git_repo(&mut self, repo_identity_path: String)
        requires
            wf(old(self)@),
        ensures
            final(self)@ == enable_git_repo_spec(old(self)@, repo_identity_path@),
            wf(final(self)@),
    {
        let ghost r0 = self@;
        if self.is_git_repo {
            self.repo_identity_path = repo_identity_path;
            proof {
                assert(self@ =~= enable_git_repo_spec(r0, self@.repo_identity_path));
            }
            return ;
        }
        self.is_git_repo = true;
        self.repo_identity_path = repo_identity_path;
        let placeholder: String = "(no git)".to_owned();
        let n = self.worktrees.len();
        let mut i: usize = 0;
        while i < n
            invariant
                i <= n,
                n == self.worktrees.len(),
                self@.worktrees.len() == n,
                r0.worktrees.len() == n,
                self@.slots == r0.slots,
                self@.active_slot_id == r0.active_slot_id,
                self@.repo_root_path == r0.repo_root_path,
                self@.repo_identity_path == repo_identity_path@,
                self@.is_git_repo == true,
                placeholder@ == "(no git)"@,
                forall|k: int|
                    0 <= k < i ==> #[trigger] self@.worktrees[k] == refreshed_placeholder(
                        r0.repo_root_path,
                        r0.worktrees[k],
                    ),
                forall|k: int| i <= k < n ==> #[trigger] self@.worktrees[k] == r0.worktrees[k],
            decreases n - i,
        {
            let ghost pre = self@.worktrees;
            let is_root = self.worktrees[i].worktree_path == self.repo_root_path;
            let is_placeholder = self.worktrees[i].branch_name == placeholder;
            if is_root && is_placeholder {
                self.worktrees[i].branch_name = "(scanning...)".to_owned();
            }
            proof {
                assert forall|k: int| 0 <= k < n && k != i implies #[trigger] self@.worktrees[k]
                    == pre[k] by {}
                assert(pre[i as int] == r0.worktrees[i as int]);
                assert(self@.worktrees[i as int] =~= refreshed_placeholder(
                    r0.repo_root_path,
                    r0.worktrees[i as int],
                ));
            }
            i = i + 1;
        }
        proof {
            let r2 = enable_git_repo_spec(r0, self@.repo_identity_path);
            assert(self@.worktrees =~= r2.worktrees);
            assert(self@ =~= r2);
            assert forall|k: int| 0 <= k < r0.worktrees.len() implies (#[trigger] self@.worktrees[k]).slot_id
                == r0.worktrees[k].slot_id by {}
            lemma_wf_entries_rewrite(r0, self@);
        }
    }

    /// Merge one reported worktree into the registry.
    fn merge_scanned_step(&mut self, scanned: &ScannedWorktree, now: i64)
        ensures
            final(self)@ == merge_one_spec(old(self)@, scanned@, now as int),
    {
        let ghost r0 = self@;
        let id = WorktreeSlotId::from_worktree_path(scanned.worktree_path.as_str());
        match find_entry(&self.worktrees, &id) {
            Some(ei) => {
                self.worktrees[ei].worktree_path = scanned.worktree_path.clone();
                self.worktrees[ei].branch_name = scanned.branch_name.clone();
                proof {
                    assert(self@.worktrees =~= merge_one_spec(r0, scanned@, now as int).worktrees);
                    assert(self@ =~= merge_one_spec(r0, scanned@, now as int));
                }
            },
            None => {
                let entry = WorktreeEntry::new_at(
                    id.clone(),
                    scanned.worktree_path.clone(),
                    scanned.branch_name.clone(),
                    now,
                );
                self.worktrees.push(entry);
                self.slots.push(WorktreeSlot::new(id, scanned.worktree_path.clone()));
                proof {
                    let r2 = merge_one_spec(r0, scanned@, now as int);
                    assert(self@.worktrees =~= r2.worktrees);
                    assert(self@.slots =~= r2.slots);
                    assert(self@ =~= r2);
                }
            },
        }
    }

    /// Reconcile the registry against a reported worktree listing, at an
    /// explicit time: update or create an entry per reported worktree,
    /// drop every identity the scan no longer reports except the active
    /// one, and re-sort the entries for presentation.
    pub fn update_worktrees_from_scan_at(&mut self, scanned: &Vec<ScannedWorktree>, now: i64) -> (
        ev: WorktreeRegistryEvent)
        requires
            wf(old(self)@),
        ensures
            final(self)@ == reconcile_spec(old(self)@, scanned.deep_view(), now as int),
            wf(final(self)@),
            ev@ == EventV::WorktreesScanned,
    {
        let ghost r0 = self@;
        let ghost scansv = scanned.deep_view();
        let n = scanned.len();
        let mut i: usize = 0;
        proof {
            assert(scansv.take(0) =~= Seq::<ScanV>::empty());
        }
        while i < n
            invariant
                i <= n,
                n == scanned.len(),
                scansv == scanned.deep_view(),
                scansv.len() == n,
                self@ == merge_spec(r0, scansv.take(i as int), now as int),
            decreases n - i,
        {
            self.merge_scanned_step(&scanned[i], now);
            proof {
                assert(scansv.take(i as int + 1) =~= scansv.take(i as int).push(
                    scansv[i as int],
                ));
                lemma_merge_spec_snoc(r0, scansv.take(i as int), scansv[i as int], now as int);
            }
            i = i + 1;
        }
        proof {
            assert(scansv.take(n as int) =~= scansv);
            lemma_wf_merge(r0, scansv, now as int);
        }
        let ghost rm = self@;
        // Retain only what the scan reported, plus the active identity.
        let ghost pe = |e: EntryV| retain_keep(rm.active_slot_id, scansv, e.slot_id);
        let ghost ps = |s: SlotV| retain_keep(rm.active_slot_id, scansv, s.slot_id);
        let wn = self.worktrees.len();
        let mut kept: Vec<WorktreeEntry> = Vec::new();
        let mut i2: usize = 0;
        while i2 < wn
            invariant
                i2 <= wn,
                wn == self.worktrees.len(),
                self@ == rm,
                rm.worktrees.len() == wn,
                scansv == scanned.deep_view(),
                pe == (|e: EntryV| retain_keep(rm.active_slot_id, scansv, e.slot_id)),
                kept.deep_view() == rm.worktrees.take(i2 as int).filter(pe),
            decreases wn - i2,
        {
            let ghost pre = kept.deep_view();
            let in_scan = scan_lists_id(scanned, &self.worktrees[i2].slot_id);
            let is_active = match &self.active_slot_id {
                Some(a) => a.0 == self.worktrees[i2].slot_id.0,
                None => false,
            };
            if in_scan || is_active {
                kept.push(self.worktrees[i2].clone());
                proof {
                    assert(pe(rm.worktrees[i2 as int]));
                    assert(kept.deep_view() =~= pre.push(rm.worktrees[i2 as int]));
                }
            } else {
                proof {
                    assert(!pe(rm.worktrees[i2 as int]));
                }
            }
            proof {
                lemma_filter_take_step(rm.worktrees, pe, i2 as int);
            }
            i2 = i2 + 1;
        }
        let mut old_slots: Vec<WorktreeSlot> = Vec::new();
        core::mem::swap(&mut self.slots, &mut old_slots);
        let ghost os = old_slots.deep_view();
        proof {
            assert(os == rm.slots);
            assert(os.skip(0) =~= os);
        }
        let m = old_slots.len();
        let mut kept_slots: Vec<WorktreeSlot> = Vec::new();
        let mut j: usize = 0;
        while j < m
            invariant
                j <= m,
                m == os.len(),
                old_slots.deep_view() == os.skip(j as int),
                old_slots.len() + j == m,
                scansv == scanned.deep_view(),
                self@.active_slot_id == rm.active_slot_id,
                ps == (|s: SlotV| retain_keep(rm.active_slot_id, scansv, s.slot_id)),
                kept_slots.deep_view() == os.take(j as int).filter(ps),
            decreases m - j,
        {
            let ghost pre = kept_slots.deep_view();
            let ghost remaining = old_slots.deep_view();
            let ghost prevv = old_slots@;
            let slot = old_slots.remove(0);
            proof {
                assert(slot@ == remaining[0]);
                assert(remaining[0] == os[j as int]);
                assert(old_slots@ =~= prevv.skip(1));
                assert forall|k: int| 0 <= k < old_slots.deep_view().len() implies #[trigger] old_slots.deep_view()[k]
                    == os[j as int + 1 + k] by {
                    assert(old_slots@[k] == prevv[k + 1]);
                    assert(remaining[k + 1] == os.skip(j as int)[k + 1]);
                }
                assert(old_slots.deep_view() =~= os.skip(j as int + 1));
            }
            let in_scan = scan_lists_id(scanned, &slot.slot_id);
            let is_active = match &self.active_slot_id {
                Some(a) => a.0 == slot.slot_id.0,
                None => false,
            };
            if in_scan || is_active {
                kept_slots.push(slot);
                proof {
                    assert(ps(os[j as int]));
                    assert(kept_slots.deep_view() =~= pre.push(os[j as int]));
                }
            } else {
                proof {
                    assert(!ps(os[j as int]));
                }
            }
            proof {
                lemma_filter_take_step(os, ps, j as int);
            }
            j = j + 1;
        }
        self.worktrees = kept;
        self.slots = kept_slots;
        proof {
            assert(rm.worktrees.take(wn as int) =~= rm.worktrees);
            assert(os.take(m as int) =~= os);
            assert(self@ =~= retain_spec(rm, scansv));
            lemma_wf_retain(rm, scansv);
        }
        let ghost rr = self@;
        // Re-sort for presentation: the active entry first, the rest by
        // branch label, then path.
        let active = match &self.active_slot_id {
            Some(a) => Some(a.clone()),
            None => None,
        };
        proof {
            assert(active.deep_view() == rr.active_slot_id);
        }
        sort_entries(&mut self.worktrees, &active);
        proof {
            assert(self@ =~= sort_spec(rr));
            lemma_wf_sort(rr);
        }
        WorktreeRegistryEvent::WorktreesScanned
    }

    /// Reconcile against a reported worktree listing, stamping entries
    /// created for newly reported worktrees with the wall clock.
    pub fn update_worktrees_from_scan(&mut self, scanned: &Vec<ScannedWorktree>) -> (ev:
        WorktreeRegistryEvent)
        requires
            wf(old(self)@),
        ensures
            exists|t: int|
                0 <= t && final(self)@ == #[trigger] reconcile_spec(
                    old(self)@,
                    scanned.deep_view(),
                    t,
                ),
            wf(final(self)@),
            ev@ == EventV::WorktreesScanned,
    {
        let ghost r0 = self@;
        let now = now_timestamp();
        let ev = self.update_worktrees_from_scan_at(scanned, now);
        proof {
            assert(0 <= now as int && self@ == reconcile_spec(r0, scanned.deep_view(), now as int));
        }
        ev
    }

    /// Registration: insert an entry and an unloaded slot for a new
    /// identity; a known identity is left untouched (not an error).
    pub fn add_worktree(&mut self, entry: WorktreeEntry) -> (ev: Option<WorktreeRegistryEvent>)
        requires
            wf(old(self)@),
        ensures
            final(self)@ == register_spec(old(self)@, entry@),
            wf(final(self)@),
            match ev {
                Some(e) => !has_entry(old(self)@.worktrees, entry@.slot_id) && e@
                    == EventV::WorktreeAdded(entry@.slot_id),
                None => has_entry(old(self)@.worktrees, entry@.slot_id),
            },
    {
        let ghost r0 = self@;
        proof {
            lemma_entry_idx(r0.worktrees, entry@.slot_id);
        }
        match find_entry(&self.worktrees, &entry.slot_id) {
            Some(_) => {
                proof {
                    assert(self@ =~= register_spec(r0, entry@));
                }
                None
            },
            None => {
                let slot_id = entry.slot_id.clone();
                let worktree_path = entry.worktree_path.clone();
                let ghost ev = entry@;
                self.worktrees.push(entry);
                self.slots.push(WorktreeSlot::new(slot_id.clone(), worktree_path));
                proof {
                    let r2 = register_spec(r0, ev);
                    assert(self@.worktrees =~= r2.worktrees);
                    assert(self@.slots =~= r2.slots);
                    assert(self@ =~= r2);
                    lemma_wf_register(r0, ev);
                }
                Some(WorktreeRegistryEvent::WorktreeAdded(slot_id))
            },
        }
    }
}

} // verus!
