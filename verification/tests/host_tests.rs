use vasc_collab::fingerprint::hash_content;
use vasc_collab::host::{
    accepted_reply, authenticate, changes, check_auth, disk_change, file_content, file_not_found, manifest,
    propose, session_known, verdict_status, write_failed_reply, Verdict, WriteStep,
    STATUS_BAD_REQUEST, STATUS_CONFLICT, STATUS_INTERNAL_ERROR, STATUS_NOT_FOUND, STATUS_OK,
    STATUS_UNAUTHORIZED,
};
use vasc_collab::protocol::{AuthRequest, ChangeProposal, ChangesSinceQuery, PROTOCOL_VERSION};
use vasc_collab::snapshot::build_manifest_from_dir;
use vasc_collab::state::CollabState;

fn host_with_a_lua() -> CollabState {
    let mut state = CollabState::new();
    build_manifest_from_dir(vec![("src/a.lua".to_string(), b"x".to_vec())], &mut state);
    state
}

fn proposal(session_id: u32, path: &str, base_rev: u64, content: &[u8]) -> ChangeProposal {
    ChangeProposal { session_id, path: path.to_string(), base_rev, content: content.to_vec() }
}

#[test]
fn status_codes() {
    assert_eq!(STATUS_OK, 200);
    assert_eq!(STATUS_BAD_REQUEST, 400);
    assert_eq!(STATUS_UNAUTHORIZED, 401);
    assert_eq!(STATUS_NOT_FOUND, 404);
    assert_eq!(STATUS_CONFLICT, 409);
    assert_eq!(STATUS_INTERNAL_ERROR, 500);
    assert_eq!(PROTOCOL_VERSION, 1);
}

#[test]
fn check_auth_cases() {
    let secret = Some("s3cr3t".to_string());
    assert!(check_auth(&None, &None));
    assert!(check_auth(&Some("anything".to_string()), &None));
    assert!(check_auth(&secret, &secret));
    assert!(!check_auth(&Some("wrong".to_string()), &secret));
    assert!(!check_auth(&Some("s3cr3t ".to_string()), &secret));
    assert!(!check_auth(&Some("".to_string()), &secret));
    assert!(!check_auth(&None, &secret));
}

#[test]
fn auth_without_token_is_refused_by_a_host_with_token() {
    let mut state = CollabState::new();
    let expected = Some("s3cr3t".to_string());
    let (status, body) = authenticate(&mut state, &expected, &AuthRequest { token: None, protocol_version: 1 });
    assert_eq!(status, 401);
    assert_eq!(body.session_id, 0);
    assert!(!body.ok);
    assert_eq!(body.error.as_deref(), Some("invalid token"));
    assert!(state.sessions.is_empty());
    assert_eq!(state.next_session_id, 1);
}

#[test]
fn auth_with_wrong_token_is_refused() {
    let mut state = CollabState::new();
    let expected = Some("s3cr3t".to_string());
    let request = AuthRequest { token: Some("wrong".to_string()), protocol_version: 1 };
    let (status, body) = authenticate(&mut state, &expected, &request);
    assert_eq!(status, 401);
    assert!(!body.ok);
    assert_eq!(body.error.as_deref(), Some("invalid token"));
    assert!(state.sessions.is_empty());
}

#[test]
fn auth_with_right_token_gets_a_fresh_session() {
    let mut state = CollabState::new();
    let expected = Some("s3cr3t".to_string());
    let request = AuthRequest { token: Some("s3cr3t".to_string()), protocol_version: 1 };
    let (status, body) = authenticate(&mut state, &expected, &request);
    assert_eq!(status, 200);
    assert!(body.ok);
    assert_eq!(body.session_id, 1);
    assert_eq!(body.error, None);
    assert_eq!(state.sessions, vec![1]);

    let (status, body) = authenticate(&mut state, &expected, &request);
    assert_eq!(status, 200);
    assert_eq!(body.session_id, 2);
    assert_eq!(state.sessions, vec![1, 2]);
}

#[test]
fn auth_with_other_protocol_version_is_refused() {
    let mut state = CollabState::new();
    let expected = Some("s3cr3t".to_string());
    let request = AuthRequest { token: Some("s3cr3t".to_string()), protocol_version: 2 };
    let (status, body) = authenticate(&mut state, &expected, &request);
    assert_eq!(status, 400);
    assert_eq!(body.session_id, 0);
    assert!(!body.ok);
    assert_eq!(body.error.as_deref(), Some("protocol version mismatch: server=1, client=2"));
    assert!(state.sessions.is_empty());
}

#[test]
fn auth_judges_the_version_before_the_token() {
    let mut state = CollabState::new();
    let expected = Some("s3cr3t".to_string());
    let request = AuthRequest { token: Some("wrong".to_string()), protocol_version: 40 };
    let (status, body) = authenticate(&mut state, &expected, &request);
    assert_eq!(status, 400);
    assert_eq!(body.error.as_deref(), Some("protocol version mismatch: server=1, client=40"));
}

#[test]
fn auth_on_an_open_host_needs_no_token() {
    let mut state = CollabState::new();
    let (status, body) = authenticate(&mut state, &None, &AuthRequest { token: None, protocol_version: 1 });
    assert_eq!(status, 200);
    assert_eq!(body.session_id, 1);
    let request = AuthRequest { token: Some("whatever".to_string()), protocol_version: 1 };
    let (status, body) = authenticate(&mut state, &None, &request);
    assert_eq!(status, 200);
    assert_eq!(body.session_id, 2);
}

#[test]
fn single_edit_round_trip() {
    let mut state = host_with_a_lua();
    let (_, joined) = authenticate(&mut state, &None, &AuthRequest { token: None, protocol_version: 1 });
    let listing = manifest(&state);
    assert_eq!(listing.head_rev, 1);
    assert_eq!(listing.files.len(), 1);
    assert_eq!(listing.files[0].path, "src/a.lua");
    assert_eq!(listing.files[0].rev, 1);
    assert_eq!(listing.files[0].hash, hash_content(b"x"));

    let verdict = propose(&mut state, &proposal(joined.session_id, "src/a.lua", 1, b"y"));
    assert_eq!(verdict_status(&verdict), 200);
    let entry = match verdict {
        Verdict::Committed(entry) => entry,
        other => panic!("expected a commit, got {:?}", other),
    };
    assert_eq!(entry.rev, 2);
    assert_eq!(entry.hash, hash_content(b"y"));
    assert_eq!(state.files.get("src/a.lua").unwrap().rev, 2);
    assert_eq!(state.global_seq, 2);

    let reply = accepted_reply(&entry);
    assert!(reply.accepted);
    assert_eq!(reply.path, "src/a.lua");
    assert_eq!(reply.new_rev, Some(2));
    assert_eq!(reply.conflict_rev, None);
    assert_eq!(reply.conflict_hash, None);
    assert_eq!(reply.error, None);

    let batch = changes(&state, &ChangesSinceQuery { since_rev: 1 });
    assert_eq!(batch.head_rev, 2);
    assert_eq!(batch.entries.len(), 1);
    assert_eq!(batch.entries[0].path, "src/a.lua");
    assert_eq!(batch.entries[0].rev, 2);
    assert_eq!(batch.entries[0].content, b"y");
    assert_eq!(batch.entries[0].from_session, Some(joined.session_id));
}

#[test]
fn second_of_two_proposals_on_one_revision_conflicts() {
    let mut state = host_with_a_lua();
    let a = state.add_session();
    let b = state.add_session();
    state.apply_change("src/a.lua".into(), b"w".to_vec(), None);
    assert_eq!(state.files.get("src/a.lua").unwrap().rev, 2);

    let first = propose(&mut state, &proposal(a, "src/a.lua", 2, b"A"));
    assert!(matches!(&first, Verdict::Committed(entry) if entry.rev == 3));

    let second = propose(&mut state, &proposal(b, "src/a.lua", 2, b"B"));
    assert_eq!(verdict_status(&second), 409);
    let result = match second {
        Verdict::Conflict(result) => result,
        other => panic!("expected a conflict, got {:?}", other),
    };
    assert_eq!(result.path, "src/a.lua");
    assert!(!result.accepted);
    assert_eq!(result.new_rev, None);
    assert_eq!(result.conflict_rev, Some(3));
    assert_eq!(result.conflict_hash, Some(hash_content(b"A")));
    assert_eq!(result.error.as_deref(), Some("conflict: base_rev=2 but current_rev=3"));

    assert_eq!(state.global_seq, 3);
    assert_eq!(state.files.get("src/a.lua").unwrap().content, b"A");
    let served = file_content(&state, "src/a.lua").unwrap();
    assert_eq!(served.content, b"A");
    assert_eq!(served.rev, 3);
    assert_eq!(served.hash, hash_content(b"A"));
}

#[test]
fn proposal_for_a_new_file_is_based_on_revision_zero() {
    let mut state = CollabState::new();
    let id = state.add_session();
    let verdict = propose(&mut state, &proposal(id, "new.lua", 0, b"n"));
    assert!(matches!(&verdict, Verdict::Committed(entry) if entry.rev == 1 && entry.path == "new.lua"));
    assert_eq!(state.change_log[0].entry.from_session, Some(id));
}

#[test]
fn proposal_for_a_new_file_on_another_base_conflicts_without_hash() {
    let mut state = CollabState::new();
    let id = state.add_session();
    let verdict = propose(&mut state, &proposal(id, "new.lua", 3, b"n"));
    let result = match verdict {
        Verdict::Conflict(result) => result,
        other => panic!("expected a conflict, got {:?}", other),
    };
    assert_eq!(result.conflict_rev, Some(0));
    assert_eq!(result.conflict_hash, None);
    assert_eq!(result.error.as_deref(), Some("conflict: base_rev=3 but current_rev=0"));
    assert_eq!(state.global_seq, 0);
}

#[test]
fn proposal_of_an_unknown_session_is_refused() {
    let mut state = host_with_a_lua();
    state.add_session();
    let verdict = propose(&mut state, &proposal(5, "src/a.lua", 1, b"y"));
    assert_eq!(verdict_status(&verdict), 401);
    let result = match verdict {
        Verdict::UnknownSession(result) => result,
        other => panic!("expected a refusal, got {:?}", other),
    };
    assert_eq!(result.path, "src/a.lua");
    assert!(!result.accepted);
    assert_eq!(result.new_rev, None);
    assert_eq!(result.conflict_rev, None);
    assert_eq!(result.conflict_hash, None);
    assert_eq!(result.error.as_deref(), Some("unknown session; re-authenticate"));
    assert_eq!(state.global_seq, 1);
    assert_eq!(state.files.get("src/a.lua").unwrap().content, b"x");
}

#[test]
fn the_session_is_judged_before_the_revision() {
    let mut state = host_with_a_lua();
    let verdict = propose(&mut state, &proposal(9, "src/a.lua", 7, b"y"));
    assert!(matches!(verdict, Verdict::UnknownSession(_)));
}

#[test]
fn a_removed_session_can_no_longer_propose() {
    let mut state = host_with_a_lua();
    let id = state.add_session();
    state.remove_session(id);
    let verdict = propose(&mut state, &proposal(id, "src/a.lua", 1, b"y"));
    assert!(matches!(verdict, Verdict::UnknownSession(_)));
}

#[test]
fn session_known_looks_through_the_registry() {
    assert!(session_known(&vec![1, 2, 5], 5));
    assert!(session_known(&vec![1, 2, 5], 1));
    assert!(!session_known(&vec![1, 2, 5], 3));
    assert!(!session_known(&Vec::new(), 1));
}

#[test]
fn write_failure_is_reported_without_undoing_the_commit() {
    let mut state = host_with_a_lua();
    let id = state.add_session();
    let verdict = propose(&mut state, &proposal(id, "src/a.lua", 1, b"y"));
    assert!(matches!(verdict, Verdict::Committed(_)));

    let reply = write_failed_reply("src/a.lua", WriteStep::WriteFile, "disk full");
    assert_eq!(reply.path, "src/a.lua");
    assert!(!reply.accepted);
    assert_eq!(reply.new_rev, None);
    assert_eq!(reply.conflict_rev, None);
    assert_eq!(reply.conflict_hash, None);
    assert_eq!(reply.error.as_deref(), Some("failed to write file: disk full"));

    let reply = write_failed_reply("src/a.lua", WriteStep::CreateParent, "permission denied");
    assert_eq!(reply.error.as_deref(), Some("failed to create parent dir: permission denied"));

    assert_eq!(state.global_seq, 2);
    assert_eq!(state.files.get("src/a.lua").unwrap().content, b"y");
}

#[test]
fn file_serves_content_revision_and_fingerprint() {
    let state = host_with_a_lua();
    let served = file_content(&state, "src/a.lua").unwrap();
    assert_eq!(served.path, "src/a.lua");
    assert_eq!(served.content, b"x");
    assert_eq!(served.rev, 1);
    assert_eq!(served.hash, "529a64dc8ff592d4");
}

#[test]
fn file_that_is_not_there() {
    let state = host_with_a_lua();
    assert!(file_content(&state, "src/b.lua").is_none());
    assert!(file_content(&state, "").is_none());
    assert_eq!(file_not_found("src/b.lua"), "file not found: src/b.lua");
}

#[test]
fn manifest_lists_every_file_once_sorted() {
    let mut state = CollabState::new();
    for (path, content) in [("src/z.lua", "1"), ("a.lua", "2"), ("src/a.lua", "3"), ("a.lua", "4")] {
        state.apply_change(path.to_string(), content.as_bytes().to_vec(), None);
    }
    let listing = manifest(&state);
    assert_eq!(listing.head_rev, 4);
    let got: Vec<(&str, u64, String)> = listing.files.iter().map(|f| (f.path.as_str(), f.rev, f.hash.clone())).collect();
    assert_eq!(
        got,
        vec![
            ("a.lua", 2, hash_content(b"4")),
            ("src/a.lua", 1, hash_content(b"3")),
            ("src/z.lua", 1, hash_content(b"1")),
        ]
    );
}

#[test]
fn manifest_of_an_empty_host() {
    let listing = manifest(&CollabState::new());
    assert!(listing.files.is_empty());
    assert_eq!(listing.head_rev, 0);
}

#[test]
fn poll_at_manifest_head_is_empty() {
    let mut state = host_with_a_lua();
    state.apply_change("b".into(), b"b".to_vec(), None);
    let listing = manifest(&state);
    let batch = changes(&state, &ChangesSinceQuery { since_rev: listing.head_rev });
    assert!(batch.entries.is_empty());
    assert_eq!(batch.head_rev, listing.head_rev);
}

#[test]
fn host_side_external_edit_is_broadcast() {
    let mut state = host_with_a_lua();
    let entry = disk_change(&mut state, "src/a.lua".to_string(), b"z".to_vec()).unwrap();
    assert_eq!(entry.path, "src/a.lua");
    assert_eq!(entry.rev, 2);
    assert_eq!(entry.hash, hash_content(b"z"));
    assert_eq!(state.global_seq, 2);

    let batch = changes(&state, &ChangesSinceQuery { since_rev: 1 });
    assert_eq!(batch.entries.len(), 1);
    assert_eq!(batch.entries[0].path, "src/a.lua");
    assert_eq!(batch.entries[0].rev, 2);
    assert_eq!(batch.entries[0].content, b"z");
    assert_eq!(batch.entries[0].from_session, None);
}

#[test]
fn watcher_ignores_what_the_host_wrote_itself() {
    let mut state = host_with_a_lua();
    let id = state.add_session();
    propose(&mut state, &proposal(id, "src/a.lua", 1, b"y"));
    assert_eq!(state.global_seq, 2);
    assert!(disk_change(&mut state, "src/a.lua".to_string(), b"y".to_vec()).is_none());
    assert_eq!(state.global_seq, 2);
    assert_eq!(state.change_log.len(), 2);
    assert_eq!(state.files.get("src/a.lua").unwrap().rev, 2);
}

#[test]
fn watcher_takes_in_a_new_file() {
    let mut state = host_with_a_lua();
    let entry = disk_change(&mut state, "src/new.lua".to_string(), b"x".to_vec()).unwrap();
    assert_eq!(entry.rev, 1);
    assert_eq!(state.global_seq, 2);
    assert_eq!(state.change_log[1].entry.from_session, None);
}
