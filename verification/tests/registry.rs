use worktree_registry::order::str_lex_le;
use worktree_registry::registry::ScannedWorktree;
use worktree_registry::registry::SlotState;
use worktree_registry::registry::WorktreeEntry;
use worktree_registry::registry::WorktreeRegistry;
use worktree_registry::registry::WorktreeRegistryEvent;
use worktree_registry::registry::WorktreeSlotId;
use worktree_registry::registry::CACHED_SLOT_TIMEOUT_SECS;

fn id(path: &str) -> WorktreeSlotId {
    WorktreeSlotId::from_worktree_path(path)
}

fn scanned(path: &str, branch: &str) -> ScannedWorktree {
    ScannedWorktree { worktree_path: path.to_string(), branch_name: branch.to_string() }
}

#[test]
fn bootstrap_registers_the_root_as_active() {
    let reg = WorktreeRegistry::new_at(
        "/repo/main".to_string(),
        "/repo/main/.git".to_string(),
        true,
        100,
    );
    assert_eq!(reg.repo_root_path().as_str(), "/repo/main");
    assert_eq!(reg.repo_identity_path().as_str(), "/repo/main/.git");
    assert!(reg.is_git_repo());
    assert_eq!(reg.worktrees().len(), 1);
    assert_eq!(reg.worktrees()[0].worktree_path, "/repo/main");
    assert_eq!(reg.worktrees()[0].branch_name, "(scanning...)");
    assert_eq!(reg.worktrees()[0].last_accessed, 100);
    assert_eq!(reg.worktrees()[0].agent_chat_count, 0);
    assert_eq!(reg.active_slot_id(), Some(&id("/repo/main")));
    let slot = reg.get_slot(&id("/repo/main")).unwrap();
    assert_eq!(slot.state, SlotState::Active);
    assert!(slot.is_loaded());
    assert_eq!(slot.cleanup_at, None);
}

#[test]
fn bootstrap_without_git_uses_the_placeholder() {
    let reg = WorktreeRegistry::new_at("/w".to_string(), "/w".to_string(), false, 5);
    assert!(!reg.is_git_repo());
    assert_eq!(reg.worktrees()[0].branch_name, "(no git)");
}

// The lifecycle scenario: bootstrap, switch away, switch back before the
// timer fires, then let the other slot's timer fire.
#[test]
fn switch_cache_reactivate_and_evict() {
    let mut reg = WorktreeRegistry::new_at(
        "/repo/w0".to_string(),
        "/repo/w0/.git".to_string(),
        true,
        100,
    );
    let w0 = id("/repo/w0");
    let w1 = id("/repo/w1");

    // Activate W1: W0 becomes cached with a pending eviction, W1 becomes
    // active with a freshly built handle.
    let ev = reg.set_active_slot_at(w1.clone(), 110);
    match ev {
        WorktreeRegistryEvent::ActiveSlotChanged { old_slot_id, new_slot_id } => {
            assert_eq!(old_slot_id, Some(w0.clone()));
            assert_eq!(new_slot_id, w1.clone());
        }
        _ => panic!("expected ActiveSlotChanged"),
    }
    let s0 = reg.get_slot(&w0).unwrap();
    assert_eq!(s0.state, SlotState::Cached);
    assert!(s0.is_loaded());
    assert_eq!(s0.cleanup_at, Some(110 + CACHED_SLOT_TIMEOUT_SECS));
    let s1 = reg.get_slot(&w1).unwrap();
    assert_eq!(s1.state, SlotState::Active);
    assert!(s1.is_loaded());
    assert_eq!(s1.cleanup_at, None);

    // Reactivate W0 before its timer fires: its eviction is cancelled and
    // its handle survives; W1 is cached with a fresh timer.
    let ev = reg.set_active_slot_at(w0.clone(), 200);
    match ev {
        WorktreeRegistryEvent::ActiveSlotChanged { old_slot_id, new_slot_id } => {
            assert_eq!(old_slot_id, Some(w1.clone()));
            assert_eq!(new_slot_id, w0.clone());
        }
        _ => panic!("expected ActiveSlotChanged"),
    }
    let s0 = reg.get_slot(&w0).unwrap();
    assert_eq!(s0.state, SlotState::Active);
    assert!(s0.is_loaded());
    assert_eq!(s0.cleanup_at, None);
    let s1 = reg.get_slot(&w1).unwrap();
    assert_eq!(s1.state, SlotState::Cached);
    assert!(s1.is_loaded());
    assert_eq!(s1.cleanup_at, Some(200 + CACHED_SLOT_TIMEOUT_SECS));

    // W0's original timer was cancelled; were its action to fire anyway,
    // it would find the slot no longer cached and change nothing.
    reg.cleanup_cached_slot(&w0);
    let s0 = reg.get_slot(&w0).unwrap();
    assert_eq!(s0.state, SlotState::Active);
    assert!(s0.is_loaded());

    // The clock passes W1's deadline and its timer fires: W1 is unloaded
    // and its handle dropped; W0 stays active and untouched.
    reg.cleanup_cached_slot(&w1);
    let s1 = reg.get_slot(&w1).unwrap();
    assert_eq!(s1.state, SlotState::Unloaded);
    assert!(!s1.is_loaded());
    assert_eq!(s1.cleanup_at, None);
    let s0 = reg.get_slot(&w0).unwrap();
    assert_eq!(s0.state, SlotState::Active);
    assert!(s0.is_loaded());
    assert_eq!(reg.active_slot_id(), Some(&w0));
}

#[test]
fn at_most_one_slot_is_active_after_each_activation() {
    let mut reg = WorktreeRegistry::new_at("/a".to_string(), "/a".to_string(), true, 0);
    let ids = ["/a", "/b", "/c", "/b", "/a"];
    let mut t: i64 = 1;
    for path in ids {
        reg.set_active_slot_at(id(path), t);
        t += 1;
        let mut active_count = 0;
        for entry in reg.worktrees() {
            let slot = reg.get_slot(&entry.slot_id).unwrap();
            if slot.state == SlotState::Active {
                active_count += 1;
            }
        }
        assert_eq!(active_count, 1);
        assert_eq!(reg.active_slot_id(), Some(&id(path)));
    }
}

#[test]
fn activating_an_unknown_identity_registers_it() {
    let mut reg = WorktreeRegistry::new_at("/a".to_string(), "/a".to_string(), true, 0);
    reg.set_active_slot_at(id("/b"), 7);
    assert_eq!(reg.worktrees().len(), 2);
    let entries: Vec<_> = reg.worktrees().iter().filter(|e| e.worktree_path == "/b").collect();
    assert_eq!(entries.len(), 1);
    assert_eq!(entries[0].branch_name, "(scanning...)");
    assert_eq!(entries[0].last_accessed, 7);
    let slot = reg.get_slot(&id("/b")).unwrap();
    assert_eq!(slot.state, SlotState::Active);
    assert!(slot.is_loaded());
}

#[test]
fn reactivating_the_active_slot_refreshes_access_time_only() {
    let mut reg = WorktreeRegistry::new_at("/a".to_string(), "/a".to_string(), true, 0);
    let ev = reg.set_active_slot_at(id("/a"), 42);
    match ev {
        WorktreeRegistryEvent::ActiveSlotChanged { old_slot_id, new_slot_id } => {
            assert_eq!(old_slot_id, Some(new_slot_id));
        }
        _ => panic!("expected ActiveSlotChanged"),
    }
    assert_eq!(reg.worktrees().len(), 1);
    assert_eq!(reg.worktrees()[0].last_accessed, 42);
    let slot = reg.get_slot(&id("/a")).unwrap();
    assert_eq!(slot.state, SlotState::Active);
    assert_eq!(slot.cleanup_at, None);
}

#[test]
fn eviction_deadline_saturates_at_the_clock_range() {
    let mut reg = WorktreeRegistry::new_at("/a".to_string(), "/a".to_string(), true, 0);
    reg.set_active_slot_at(id("/b"), i64::MAX - 1);
    let slot = reg.get_slot(&id("/a")).unwrap();
    assert_eq!(slot.cleanup_at, Some(i64::MAX));
}

#[test]
fn removing_the_active_worktree_is_a_protected_no_op() {
    let mut reg = WorktreeRegistry::new_at("/a".to_string(), "/a".to_string(), true, 0);
    reg.add_worktree(WorktreeEntry::new_at(id("/b"), "/b".to_string(), "dev".to_string(), 1));
    let ev = reg.remove_worktree(&id("/a"));
    assert!(ev.is_none());
    assert_eq!(reg.worktrees().len(), 2);
    assert_eq!(reg.active_slot_id(), Some(&id("/a")));
    assert!(reg.get_slot(&id("/a")).is_some());
}

#[test]
fn removing_another_worktree_drops_entry_and_slot() {
    let mut reg = WorktreeRegistry::new_at("/a".to_string(), "/a".to_string(), true, 0);
    reg.add_worktree(WorktreeEntry::new_at(id("/b"), "/b".to_string(), "dev".to_string(), 1));
    assert_eq!(reg.worktrees().len(), 2);
    let ev = reg.remove_worktree(&id("/b"));
    match ev {
        Some(WorktreeRegistryEvent::WorktreeRemoved(gone)) => assert_eq!(gone, id("/b")),
        _ => panic!("expected WorktreeRemoved"),
    }
    assert_eq!(reg.worktrees().len(), 1);
    assert!(reg.get_slot(&id("/b")).is_none());
}

#[test]
fn removing_an_unknown_identity_changes_nothing() {
    let mut reg = WorktreeRegistry::new_at("/a".to_string(), "/a".to_string(), true, 0);
    let ev = reg.remove_worktree(&id("/ghost"));
    assert!(matches!(ev, Some(WorktreeRegistryEvent::WorktreeRemoved(_))));
    assert_eq!(reg.worktrees().len(), 1);
}

#[test]
fn registering_a_known_identity_is_a_no_op() {
    let mut reg = WorktreeRegistry::new_at("/a".to_string(), "/a".to_string(), true, 0);
    let ev = reg.add_worktree(WorktreeEntry::new_at(id("/a"), "/a".to_string(), "x".to_string(), 9));
    assert!(ev.is_none());
    assert_eq!(reg.worktrees().len(), 1);
    assert_eq!(reg.worktrees()[0].branch_name, "(scanning...)");
}

#[test]
fn registering_a_new_identity_adds_an_unloaded_slot() {
    let mut reg = WorktreeRegistry::new_at("/a".to_string(), "/a".to_string(), true, 0);
    let ev = reg.add_worktree(WorktreeEntry::new_at(id("/b"), "/b".to_string(), "dev".to_string(), 1));
    assert!(matches!(ev, Some(WorktreeRegistryEvent::WorktreeAdded(_))));
    let slot = reg.get_slot(&id("/b")).unwrap();
    assert_eq!(slot.state, SlotState::Unloaded);
    assert!(!slot.is_loaded());
    assert_eq!(slot.cleanup_at, None);
}

// The reconciliation scenario: a stale branch label is refreshed, a new
// worktree appears unloaded, a vanished one is dropped, and the active
// entry survives in first position.
#[test]
fn reconcile_updates_creates_removes_and_sorts() {
    let mut reg = WorktreeRegistry::new_at(
        "/r/pa".to_string(),
        "/r/pa/.git".to_string(),
        true,
        0,
    );
    reg.add_worktree(WorktreeEntry::new_at(id("/r/pb"), "/r/pb".to_string(), "old-name".to_string(), 1));
    reg.add_worktree(WorktreeEntry::new_at(id("/r/pd"), "/r/pd".to_string(), "stale".to_string(), 2));
    let scans = vec![scanned("/r/pb", "main"), scanned("/r/pc", "feature")];
    let ev = reg.update_worktrees_from_scan_at(&scans, 10);
    assert!(matches!(ev, WorktreeRegistryEvent::WorktreesScanned));

    let entries = reg.worktrees();
    assert_eq!(entries.len(), 3);
    // The active entry comes first; the rest are ordered by branch label.
    assert_eq!(entries[0].worktree_path, "/r/pa");
    assert_eq!(entries[1].worktree_path, "/r/pc");
    assert_eq!(entries[1].branch_name, "feature");
    assert_eq!(entries[2].worktree_path, "/r/pb");
    assert_eq!(entries[2].branch_name, "main");
    // The new worktree has an unloaded slot and no handle built eagerly.
    let sc = reg.get_slot(&id("/r/pc")).unwrap();
    assert_eq!(sc.state, SlotState::Unloaded);
    assert!(!sc.is_loaded());
    // The vanished worktree is gone, slot included.
    assert!(reg.get_slot(&id("/r/pd")).is_none());
    // The active one is untouched.
    assert_eq!(reg.active_slot_id(), Some(&id("/r/pa")));
    assert_eq!(reg.get_slot(&id("/r/pa")).unwrap().state, SlotState::Active);
}

#[test]
fn reconcile_with_an_empty_scan_keeps_only_the_active_entry() {
    let mut reg = WorktreeRegistry::new_at("/a".to_string(), "/a".to_string(), true, 0);
    reg.add_worktree(WorktreeEntry::new_at(id("/b"), "/b".to_string(), "dev".to_string(), 1));
    reg.update_worktrees_from_scan_at(&Vec::new(), 5);
    assert_eq!(reg.worktrees().len(), 1);
    assert_eq!(reg.worktrees()[0].worktree_path, "/a");
    assert_eq!(reg.active_slot_id(), Some(&id("/a")));
}

#[test]
fn reconcile_twice_with_the_same_scan_changes_nothing_more() {
    let mut reg = WorktreeRegistry::new_at("/a".to_string(), "/a".to_string(), true, 0);
    reg.add_worktree(WorktreeEntry::new_at(id("/b"), "/b".to_string(), "old".to_string(), 1));
    let scans = vec![scanned("/b", "new"), scanned("/c", "feat")];
    reg.update_worktrees_from_scan_at(&scans, 10);
    let first: Vec<(String, String, i64, SlotState)> = reg
        .worktrees()
        .iter()
        .map(|e| {
            let s = reg.get_slot(&e.slot_id).unwrap();
            (e.worktree_path.clone(), e.branch_name.clone(), e.last_accessed, s.state)
        })
        .collect();
    let active_before = reg.active_slot_id().cloned();

    reg.update_worktrees_from_scan_at(&scans, 20);
    let second: Vec<(String, String, i64, SlotState)> = reg
        .worktrees()
        .iter()
        .map(|e| {
            let s = reg.get_slot(&e.slot_id).unwrap();
            (e.worktree_path.clone(), e.branch_name.clone(), e.last_accessed, s.state)
        })
        .collect();
    assert_eq!(first, second);
    assert_eq!(reg.active_slot_id().cloned(), active_before);
}

#[test]
fn reconcile_keeps_a_cached_slot_and_its_handle() {
    let mut reg = WorktreeRegistry::new_at("/a".to_string(), "/a".to_string(), true, 0);
    reg.set_active_slot_at(id("/b"), 10);
    // /a is now cached; a scan that still reports it must not unload it.
    let scans = vec![scanned("/a", "main"), scanned("/b", "dev")];
    reg.update_worktrees_from_scan_at(&scans, 20);
    let sa = reg.get_slot(&id("/a")).unwrap();
    assert_eq!(sa.state, SlotState::Cached);
    assert!(sa.is_loaded());
}

#[test]
fn update_agent_chat_count_touches_only_the_entry() {
    let mut reg = WorktreeRegistry::new_at("/a".to_string(), "/a".to_string(), true, 0);
    reg.update_agent_chat_count(&id("/a"), 3);
    assert_eq!(reg.worktrees()[0].agent_chat_count, 3);
    assert_eq!(reg.get_slot(&id("/a")).unwrap().state, SlotState::Active);
    // Unknown identities are a safe no-op.
    reg.update_agent_chat_count(&id("/ghost"), 9);
    assert_eq!(reg.worktrees().len(), 1);
}

#[test]
fn enable_git_repo_refreshes_the_placeholder() {
    let mut reg = WorktreeRegistry::new_at("/w".to_string(), "/w".to_string(), false, 0);
    assert_eq!(reg.worktrees()[0].branch_name, "(no git)");
    reg.enable_git_repo("/w/.git".to_string());
    assert!(reg.is_git_repo());
    assert_eq!(reg.repo_identity_path().as_str(), "/w/.git");
    assert_eq!(reg.worktrees()[0].branch_name, "(scanning...)");
    // Enabling again only adopts the new identity path.
    reg.enable_git_repo("/elsewhere/.git".to_string());
    assert_eq!(reg.repo_identity_path().as_str(), "/elsewhere/.git");
    assert_eq!(reg.worktrees()[0].branch_name, "(scanning...)");
}

#[test]
fn validate_worktree_paths_drops_missing_non_active_entries() {
    let mut reg = WorktreeRegistry::new_at("/a".to_string(), "/a".to_string(), true, 0);
    reg.add_worktree(WorktreeEntry::new_at(id("/b"), "/b".to_string(), "dev".to_string(), 1));
    reg.add_worktree(WorktreeEntry::new_at(id("/c"), "/c".to_string(), "feat".to_string(), 2));
    // Only /b still exists on disk; /a is active and protected anyway.
    let existing = vec!["/b".to_string()];
    let evs = reg.validate_worktree_paths(&existing);
    assert_eq!(evs.len(), 1);
    assert!(matches!(&evs[0], WorktreeRegistryEvent::WorktreeRemoved(gone) if *gone == id("/c")));
    assert_eq!(reg.worktrees().len(), 2);
    assert!(reg.get_slot(&id("/a")).is_some());
    assert!(reg.get_slot(&id("/b")).is_some());
    assert!(reg.get_slot(&id("/c")).is_none());
}

#[test]
fn active_worktree_returns_the_active_entry() {
    let mut reg = WorktreeRegistry::new_at("/a".to_string(), "/a".to_string(), true, 0);
    reg.set_active_slot_at(id("/b"), 3);
    let active = reg.active_worktree().unwrap();
    assert_eq!(active.worktree_path, "/b");
    assert_eq!(active.slot_id, id("/b"));
}

#[test]
fn slot_identities_come_from_paths() {
    assert_eq!(WorktreeSlotId::from_worktree_path("/x").0, "/x");
    assert_eq!(WorktreeSlotId::from_git_path("/x/.git/worktrees/y").0, "/x/.git/worktrees/y");
    assert_eq!(id("/x"), id("/x"));
    assert_ne!(id("/x"), id("/y"));
}

#[test]
fn derive_repo_identity_path_prefers_the_common_dir() {
    assert_eq!(
        worktree_registry::derive_repo_identity_path("/repo", Some("/repo/.git")),
        "/repo/.git"
    );
    assert_eq!(worktree_registry::derive_repo_identity_path("/repo", None), "/repo");
}

#[test]
fn wall_clock_constructors_stamp_a_real_time() {
    let entry = WorktreeEntry::new(id("/a"), "/a".to_string(), "main".to_string());
    assert!(entry.last_accessed >= 0);
    // The timestamp is a live clock, not a constant: it is within a broad
    // but real range (after 2020, before 2100).
    assert!(entry.last_accessed > 1_577_000_000);
    assert!(entry.last_accessed < 4_102_000_000);
    let mut reg = WorktreeRegistry::new("/a".to_string(), "/a".to_string(), true);
    reg.set_active_slot(id("/b"));
    assert_eq!(reg.active_slot_id(), Some(&id("/b")));
    let cached = reg.get_slot(&id("/a")).unwrap();
    assert_eq!(cached.state, SlotState::Cached);
    let deadline = cached.cleanup_at.unwrap();
    assert!(deadline > 1_577_000_000 + CACHED_SLOT_TIMEOUT_SECS);
}

#[test]
fn lexicographic_comparison_is_by_code_point() {
    assert!(str_lex_le("", ""));
    assert!(str_lex_le("", "a"));
    assert!(!str_lex_le("a", ""));
    assert!(str_lex_le("abc", "abd"));
    assert!(!str_lex_le("abd", "abc"));
    assert!(str_lex_le("ab", "abc"));
    assert!(str_lex_le("main", "main"));
    // Non-ASCII branches compare by unicode code point: 'z' < 'é'.
    assert!(str_lex_le("zeta", "émigré"));
    assert!(!str_lex_le("émigré", "zeta"));
}

#[test]
fn presentation_order_handles_non_ascii_branches() {
    let mut reg = WorktreeRegistry::new_at("/r/a".to_string(), "/r/a".to_string(), true, 0);
    let scans = vec![
        scanned("/r/a", "main"),
        scanned("/r/x", "émigré"),
        scanned("/r/y", "zweig"),
    ];
    reg.update_worktrees_from_scan_at(&scans, 1);
    let order: Vec<&str> = reg.worktrees().iter().map(|e| e.branch_name.as_str()).collect();
    assert_eq!(order, vec!["main", "zweig", "émigré"]);
}

#[test]
fn presentation_order_is_branch_then_path() {
    let mut reg = WorktreeRegistry::new_at("/r/a".to_string(), "/r/a".to_string(), true, 0);
    reg.add_worktree(WorktreeEntry::new_at(id("/r/z"), "/r/z".to_string(), "alpha".to_string(), 1));
    reg.add_worktree(WorktreeEntry::new_at(id("/r/b"), "/r/b".to_string(), "beta".to_string(), 2));
    reg.add_worktree(WorktreeEntry::new_at(id("/r/c"), "/r/c".to_string(), "alpha".to_string(), 3));
    let scans = vec![
        scanned("/r/z", "alpha"),
        scanned("/r/b", "beta"),
        scanned("/r/c", "alpha"),
        scanned("/r/a", "zeta"),
    ];
    reg.update_worktrees_from_scan_at(&scans, 10);
    let order: Vec<&str> = reg.worktrees().iter().map(|e| e.worktree_path.as_str()).collect();
    // Active first even though its branch sorts last; then ("alpha", "/r/c"),
    // ("alpha", "/r/z"), ("beta", "/r/b").
    assert_eq!(order, vec!["/r/a", "/r/c", "/r/z", "/r/b"]);
}
