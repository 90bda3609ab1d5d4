use vasc_collab::client::{session_from, ClientState, Outbound, Settlement};
use vasc_collab::fingerprint::hash_content;
use vasc_collab::host::{changes, file_content, manifest, propose, Verdict};
use vasc_collab::paths::Walk;
use vasc_collab::protocol::{
    AuthResponse, BroadcastEntry, ChangeResult, ChangesSinceQuery, FileContent, FileEntry, Manifest,
};
use vasc_collab::snapshot::build_manifest_from_dir;
use vasc_collab::state::CollabState;
use vasc_collab::watch::MtimeCache;

fn manifest_of_a_lua() -> Manifest {
    Manifest {
        files: vec![FileEntry { path: "src/a.lua".to_string(), rev: 1, hash: hash_content(b"x") }],
        head_rev: 1,
    }
}

fn rejected(error: Option<&str>) -> ChangeResult {
    ChangeResult {
        path: "src/a.lua".to_string(),
        accepted: false,
        new_rev: None,
        conflict_rev: Some(3),
        conflict_hash: Some(hash_content(b"A")),
        error: error.map(|e| e.to_string()),
    }
}

#[test]
fn session_from_accepting_answer() {
    let response = AuthResponse { session_id: 7, ok: true, error: None };
    assert_eq!(session_from(&response), Ok(7));
}

#[test]
fn session_from_refusal_with_reason() {
    let response = AuthResponse { session_id: 0, ok: false, error: Some("invalid token".to_string()) };
    assert_eq!(session_from(&response), Err("Authentication failed: invalid token".to_string()));
}

#[test]
fn session_from_refusal_without_reason() {
    let response = AuthResponse { session_id: 0, ok: false, error: None };
    assert_eq!(session_from(&response), Err("Authentication failed: unknown error".to_string()));
}

#[test]
fn join_takes_revisions_and_head_from_the_manifest() {
    let client = ClientState::join(3, &manifest_of_a_lua());
    assert_eq!(client.session_id, 3);
    assert_eq!(client.last_seen_rev, 1);
    assert_eq!(client.local_revs.get("src/a.lua"), Some(&(1, hash_content(b"x"))));
    assert_eq!(client.local_revs.len(), 1);
    assert_eq!(client.host_applied.len(), 0);
    assert_eq!(client.mtimes.seen.len(), 0);
}

#[test]
fn a_local_edit_is_proposed_on_the_known_revision() {
    let mut client = ClientState::join(3, &manifest_of_a_lua());
    let plan = client.outbound("src/a.lua".to_string(), b"y".to_vec());
    match plan {
        Outbound::Propose { proposal, new_hash } => {
            assert_eq!(proposal.session_id, 3);
            assert_eq!(proposal.path, "src/a.lua");
            assert_eq!(proposal.base_rev, 1);
            assert_eq!(proposal.content, b"y");
            assert_eq!(new_hash, hash_content(b"y"));
        },
        other => panic!("expected a proposal, got {:?}", other),
    }
}

#[test]
fn a_new_local_file_is_proposed_on_revision_zero() {
    let mut client = ClientState::join(3, &manifest_of_a_lua());
    let plan = client.outbound("src/new.lua".to_string(), b"n".to_vec());
    assert!(matches!(plan, Outbound::Propose { proposal, .. } if proposal.base_rev == 0 && proposal.path == "src/new.lua"));
}

#[test]
fn a_touched_but_unchanged_file_is_not_proposed() {
    let mut client = ClientState::join(3, &manifest_of_a_lua());
    let plan = client.outbound("src/a.lua".to_string(), b"x".to_vec());
    assert!(matches!(plan, Outbound::Unchanged));
}

#[test]
fn an_accepted_proposal_is_booked() {
    let mut client = ClientState::join(3, &manifest_of_a_lua());
    let accepted = ChangeResult {
        path: "src/a.lua".to_string(),
        accepted: true,
        new_rev: Some(2),
        conflict_rev: None,
        conflict_hash: None,
        error: None,
    };
    let next = client.answered("src/a.lua".to_string(), hash_content(b"y"), &accepted);
    assert!(matches!(next, Settlement::Settled));
    assert_eq!(client.local_revs.get("src/a.lua"), Some(&(2, hash_content(b"y"))));
    assert_eq!(client.host_applied.len(), 0);
}

#[test]
fn an_accepted_proposal_without_revision_changes_nothing() {
    let mut client = ClientState::join(3, &manifest_of_a_lua());
    let accepted = ChangeResult {
        path: "src/a.lua".to_string(),
        accepted: true,
        new_rev: None,
        conflict_rev: None,
        conflict_hash: None,
        error: None,
    };
    let next = client.answered("src/a.lua".to_string(), hash_content(b"y"), &accepted);
    assert!(matches!(next, Settlement::Settled));
    assert_eq!(client.local_revs.get("src/a.lua"), Some(&(1, hash_content(b"x"))));
}

#[test]
fn a_rejected_proposal_calls_for_the_hosts_copy() {
    let mut client = ClientState::join(3, &manifest_of_a_lua());
    let next = client.answered(
        "src/a.lua".to_string(),
        hash_content(b"B"),
        &rejected(Some("conflict: base_rev=2 but current_rev=3")),
    );
    match next {
        Settlement::Refetch { reason } => assert_eq!(reason, "conflict: base_rev=2 but current_rev=3"),
        other => panic!("expected a refetch, got {:?}", other),
    }
    assert_eq!(client.local_revs.get("src/a.lua"), Some(&(1, hash_content(b"x"))));

    let next = client.answered("src/a.lua".to_string(), hash_content(b"B"), &rejected(None));
    assert!(matches!(next, Settlement::Refetch { reason } if reason == "conflict"));
}

#[test]
fn conflict_is_resolved_by_the_hosts_copy_and_not_proposed_again() {
    let mut state = CollabState::new();
    build_manifest_from_dir(vec![("src/a.lua".to_string(), b"x".to_vec())], &mut state);
    state.apply_change("src/a.lua".into(), b"w".to_vec(), None);
    let a = state.add_session();
    let b = state.add_session();
    let mut client_a = ClientState::join(a, &manifest(&state));
    let mut client_b = ClientState::join(b, &manifest(&state));

    let from_a = match client_a.outbound("src/a.lua".to_string(), b"A".to_vec()) {
        Outbound::Propose { proposal, .. } => proposal,
        other => panic!("expected a proposal, got {:?}", other),
    };
    let (from_b, hash_b) = match client_b.outbound("src/a.lua".to_string(), b"B".to_vec()) {
        Outbound::Propose { proposal, new_hash } => (proposal, new_hash),
        other => panic!("expected a proposal, got {:?}", other),
    };
    assert_eq!(from_a.base_rev, 2);
    assert_eq!(from_b.base_rev, 2);

    assert!(matches!(propose(&mut state, &from_a), Verdict::Committed(_)));
    let result = match propose(&mut state, &from_b) {
        Verdict::Conflict(result) => result,
        other => panic!("expected a conflict, got {:?}", other),
    };
    let next = client_b.answered("src/a.lua".to_string(), hash_b, &result);
    assert!(matches!(next, Settlement::Refetch { .. }));

    let copy = file_content(&state, "src/a.lua").unwrap();
    assert_eq!(copy.content, b"A");
    client_b.refetched("src/a.lua".to_string(), &copy);
    assert_eq!(client_b.local_revs.get("src/a.lua"), Some(&(3, hash_content(b"A"))));

    // The walk that sees the overwritten file skips it.
    let plan = client_b.outbound("src/a.lua".to_string(), b"A".to_vec());
    assert!(matches!(plan, Outbound::Echo));
    assert_eq!(state.global_seq, 3);
}

#[test]
fn an_inbound_change_is_booked_and_not_echoed() {
    let mut client = ClientState::join(1, &manifest_of_a_lua());
    let entry = BroadcastEntry {
        path: "src/a.lua".to_string(),
        content: b"y".to_vec(),
        rev: 2,
        hash: hash_content(b"y"),
        from_session: Some(1),
    };
    client.host_change_written(&entry, Some(1_700_000_000_000_000_000));
    client.poll_done(2);
    assert_eq!(client.last_seen_rev, 2);
    assert_eq!(client.local_revs.get("src/a.lua"), Some(&(2, hash_content(b"y"))));
    assert!(client.host_applied.contains_key("src/a.lua"));
    assert_eq!(client.mtimes.seen.get("src/a.lua"), Some(&1_700_000_000_000_000_000));

    // The next walk finds the file changed but does not propose it,
    let plan = client.outbound("src/a.lua".to_string(), b"y".to_vec());
    assert!(matches!(plan, Outbound::Echo));
    assert!(!client.host_applied.contains_key("src/a.lua"));
    // and the one after that judges it by its content again.
    let plan = client.outbound("src/a.lua".to_string(), b"y".to_vec());
    assert!(matches!(plan, Outbound::Unchanged));
    let plan = client.outbound("src/a.lua".to_string(), b"edited".to_vec());
    assert!(matches!(plan, Outbound::Propose { proposal, .. } if proposal.base_rev == 2));
}

#[test]
fn an_echo_is_skipped_whatever_the_file_holds() {
    let mut client = ClientState::join(1, &manifest_of_a_lua());
    let entry = BroadcastEntry {
        path: "src/a.lua".to_string(),
        content: b"y".to_vec(),
        rev: 2,
        hash: hash_content(b"y"),
        from_session: None,
    };
    client.host_change_written(&entry, None);
    assert_eq!(client.mtimes.seen.len(), 0);
    let plan = client.outbound("src/a.lua".to_string(), b"something else".to_vec());
    assert!(matches!(plan, Outbound::Echo));
}

#[test]
fn own_edit_comes_back_in_the_poll_and_is_not_proposed_again() {
    let mut state = CollabState::new();
    build_manifest_from_dir(vec![("src/a.lua".to_string(), b"x".to_vec())], &mut state);
    let id = state.add_session();
    let mut client = ClientState::join(id, &manifest(&state));

    let (proposal, new_hash) = match client.outbound("src/a.lua".to_string(), b"y".to_vec()) {
        Outbound::Propose { proposal, new_hash } => (proposal, new_hash),
        other => panic!("expected a proposal, got {:?}", other),
    };
    let entry = match propose(&mut state, &proposal) {
        Verdict::Committed(entry) => entry,
        other => panic!("expected a commit, got {:?}", other),
    };
    let reply = vasc_collab::host::accepted_reply(&entry);
    client.answered("src/a.lua".to_string(), new_hash, &reply);
    assert_eq!(client.local_revs.get("src/a.lua"), Some(&(2, hash_content(b"y"))));

    let batch = changes(&state, &ChangesSinceQuery { since_rev: client.last_seen_rev });
    assert_eq!(batch.entries.len(), 1);
    for inbound in &batch.entries {
        client.host_change_written(inbound, Some(42));
    }
    client.poll_done(batch.head_rev);
    assert_eq!(client.last_seen_rev, 2);

    assert_eq!(client.file_seen("src/a.lua", 43), Some("src/a.lua".to_string()));
    assert!(matches!(client.outbound("src/a.lua".to_string(), b"y".to_vec()), Outbound::Echo));
    assert_eq!(state.global_seq, 2);

    let batch = changes(&state, &ChangesSinceQuery { since_rev: client.last_seen_rev });
    assert!(batch.entries.is_empty());
}

#[test]
fn a_fresh_client_polls_an_empty_batch() {
    let mut state = CollabState::new();
    build_manifest_from_dir(
        vec![("src/a.lua".to_string(), b"x".to_vec()), ("b.lua".to_string(), b"b".to_vec())],
        &mut state,
    );
    let id = state.add_session();
    let client = ClientState::join(id, &manifest(&state));
    let batch = changes(&state, &ChangesSinceQuery { since_rev: client.last_seen_rev });
    assert!(batch.entries.is_empty());
    assert_eq!(batch.head_rev, client.last_seen_rev);
}

#[test]
fn refetched_copy_is_booked_and_marked() {
    let mut client = ClientState::join(1, &manifest_of_a_lua());
    let copy = FileContent {
        path: "src/a.lua".to_string(),
        content: b"A".to_vec(),
        rev: 3,
        hash: hash_content(b"A"),
    };
    client.refetched("src/a.lua".to_string(), &copy);
    assert_eq!(client.local_revs.get("src/a.lua"), Some(&(3, hash_content(b"A"))));
    assert!(client.host_applied.contains_key("src/a.lua"));
    assert_eq!(client.last_seen_rev, 1);
}

#[test]
fn file_seen_reports_new_and_changed_files() {
    let mut client = ClientState::join(1, &manifest_of_a_lua());
    client.note_mtime("src/a.lua", 100);
    assert_eq!(client.file_seen("src/a.lua", 100), None);
    assert_eq!(client.file_seen("src/a.lua", 101), Some("src/a.lua".to_string()));
    assert_eq!(client.file_seen("src/a.lua", 101), None);
    assert_eq!(client.file_seen("src/b.lua", 5), Some("src/b.lua".to_string()));
    assert_eq!(client.file_seen("src/a.lua", 100), Some("src/a.lua".to_string()));
}

#[test]
fn file_seen_answers_with_the_canonical_path() {
    let mut client = ClientState::join(1, &manifest_of_a_lua());
    client.note_mtime("src\\a.lua", 100);
    assert_eq!(client.mtimes.seen.get("src/a.lua"), Some(&100));
    assert_eq!(client.file_seen("src/a.lua", 100), None);
    assert_eq!(client.file_seen("src\\bar\\baz.lua", 7), Some("src/bar/baz.lua".to_string()));
    assert_eq!(client.file_seen("src/bar/baz.lua", 7), None);
}

#[test]
fn file_seen_passes_by_what_a_client_walk_skips() {
    let mut client = ClientState::join(1, &manifest_of_a_lua());
    assert_eq!(client.file_seen(".git/HEAD", 1), None);
    assert_eq!(client.file_seen("node_modules/foo.js", 1), None);
    assert_eq!(client.file_seen(".vasc-collab-backup/20240101T000000/a.lua", 1), None);
    client.note_mtime(".git/config", 1);
    assert_eq!(client.mtimes.seen.len(), 0);
    assert_eq!(client.file_seen("src/.DS_Store", 1), Some("src/.DS_Store".to_string()));
}

#[test]
fn a_host_walk_passes_by_more_than_a_client_walk() {
    let mut cache = MtimeCache::new();
    assert_eq!(cache.visit(Walk::Host, "src/.DS_Store", 1), None);
    assert_eq!(cache.visit(Walk::Host, "Thumbs.db", 1), None);
    assert_eq!(cache.visit(Walk::Host, ".git/HEAD", 1), None);
    assert_eq!(cache.seen.len(), 0);
    assert_eq!(cache.visit(Walk::Host, "src\\a.lua", 1), Some("src/a.lua".to_string()));
    assert_eq!(cache.visit(Walk::Host, "src/a.lua", 1), None);
    assert_eq!(cache.visit(Walk::Host, "src/a.lua", 2), Some("src/a.lua".to_string()));
    cache.note(Walk::Host, "b.lua", 5);
    cache.note(Walk::Host, "node_modules/b.js", 5);
    assert_eq!(cache.seen.len(), 2);
    assert_eq!(cache.visit(Walk::Host, "b.lua", 5), None);
}

#[test]
fn pauses_of_the_loops() {
    assert_eq!(vasc_collab::client::IDLE_MILLIS, 500);
    assert_eq!(vasc_collab::client::UNREACHABLE_RETRY_MILLIS, 3000);
    assert_eq!(vasc_collab::client::UNREADABLE_RETRY_MILLIS, 1000);
    assert_eq!(vasc_collab::watch::HOST_WALK_MILLIS, 1000);
}

#[test]
fn mtime_cache_observes_and_records() {
    let mut cache = MtimeCache::new();
    assert!(cache.observe("a".to_string(), 1));
    assert!(!cache.observe("a".to_string(), 1));
    assert!(cache.observe("a".to_string(), 2));
    assert!(cache.observe("a".to_string(), -2));
    cache.record("b".to_string(), 9);
    assert!(!cache.observe("b".to_string(), 9));
    assert_eq!(cache.seen.get("a"), Some(&-2));
    assert_eq!(cache.seen.len(), 2);
}

#[test]
fn a_manifest_that_lists_a_path_twice_counts_the_last() {
    let listing = Manifest {
        files: vec![
            FileEntry { path: "a".to_string(), rev: 1, hash: hash_content(b"1") },
            FileEntry { path: "a".to_string(), rev: 2, hash: hash_content(b"2") },
        ],
        head_rev: 2,
    };
    let client = ClientState::join(1, &listing);
    assert_eq!(client.local_revs.get("a"), Some(&(2, hash_content(b"2"))));
}
