use colink_core::crypto::{digest32, parse_key_material};
use colink_core::errors::CoreError;
use colink_core::intercore::{backoff_ms, ReverseStreams, SyncRoute};
use colink_core::operator::{
    check_protocol_name, may_stop_instance, namespaced_key, resolve_entrypoint, resolve_fetch,
    Manifest,
};
use colink_core::server::{Core, Selector, UserConsent};
use colink_core::task::{Participant, Task, TaskStatus};
use colink_core::token::{issue_token, Privilege, Token};

fn test_core() -> Core {
    let jwt_hex: Vec<u8> = b"aa".repeat(32);
    let priv_hex: Vec<u8> = hex::encode([5u8; 32]).into_bytes();
    let km = parse_key_material(&jwt_hex, &priv_hex).unwrap();
    Core::new(km, b"amqp://127.0.0.1".to_vec())
}

fn user_token(core: &Core, user_id: &[u8], now: u64) -> Token {
    issue_token(&core.keys.jwt_secret, user_id, Privilege::User, now, now + 3600)
}

#[test]
fn storage_verbs_round_trip_through_the_core() {
    let mut core = test_core();
    let alice = b"a1".to_vec();
    let tok = user_token(&core, &alice, 0);
    let (e1, _) = core.create_entry(&tok, 1, &alice, b"users:a1:x", b"a").unwrap();
    assert_eq!(e1.version, 1);
    let (e2, _) = core.update_entry(&tok, 2, &alice, b"users:a1:x", b"b").unwrap();
    assert_eq!(e2.version, 2);
    let got = core
        .read_entries(
            &tok,
            3,
            &alice,
            &vec![
                Selector::ByName(b"users:a1:x".to_vec()),
                Selector::ByPath(b"a1::users:a1:x@1".to_vec()),
            ],
        )
        .unwrap();
    assert_eq!(got[0].payload, b"b".to_vec());
    assert_eq!(got[1].payload, b"a".to_vec());
    core.delete_entry(&tok, 4, &alice, b"users:a1:x").unwrap();
    assert_eq!(
        core.read_entries(&tok, 5, &alice, &vec![Selector::ByName(b"users:a1:x".to_vec())]).err(),
        Some(CoreError::NotFound)
    );
    // The history is still addressable by path.
    let got = core
        .read_entries(&tok, 6, &alice, &vec![Selector::ByPath(b"a1::users:a1:x@1".to_vec())])
        .unwrap();
    assert_eq!(got[0].payload, b"a".to_vec());
    // Another user's path is not.
    assert_eq!(
        core.read_entries(&tok, 7, &alice, &vec![Selector::ByPath(b"b2::users:b2:x@1".to_vec())])
            .err(),
        Some(CoreError::PermissionDenied)
    );
}

#[test]
fn subject_cross_check_gates_storage() {
    let mut core = test_core();
    let alice = b"a1".to_vec();
    let tok = user_token(&core, &alice, 0);
    assert_eq!(
        core.create_entry(&tok, 1, b"b2", b"users:b2:x", b"a").err(),
        Some(CoreError::PermissionDenied)
    );
    let host = issue_token(&core.keys.jwt_secret, b"host", Privilege::Host, 0, 100);
    assert!(core.create_entry(&host, 1, b"b2", b"users:b2:x", b"a").is_ok());
}

#[test]
fn read_keys_lists_latest_and_history() {
    let mut core = test_core();
    let alice = b"a1".to_vec();
    let tok = user_token(&core, &alice, 0);
    core.create_entry(&tok, 1, &alice, b"users:a1:x", b"a").unwrap();
    core.update_entry(&tok, 2, &alice, b"users:a1:x", b"b").unwrap();
    core.create_entry(&tok, 3, &alice, b"users:a1:y", b"c").unwrap();
    core.create_entry(&tok, 4, &alice, b"other:z", b"d").unwrap();
    let latest = core.read_keys(&tok, 5, &alice, b"users:a1:", false).unwrap();
    assert_eq!(latest, vec![b"a1::users:a1:x@2".to_vec(), b"a1::users:a1:y@3".to_vec()]);
    let all = core.read_keys(&tok, 6, &alice, b"users:a1:", true).unwrap();
    assert_eq!(
        all,
        vec![
            b"a1::users:a1:x@1".to_vec(),
            b"a1::users:a1:x@2".to_vec(),
            b"a1::users:a1:y@3".to_vec()
        ]
    );
}

#[test]
fn subscribe_delivers_catch_up_from_watermark_in_order() {
    let mut core = test_core();
    let alice = b"a1".to_vec();
    let tok = user_token(&core, &alice, 0);
    core.create_entry(&tok, 1, &alice, b"users:a1:x", b"a").unwrap();
    core.update_entry(&tok, 2, &alice, b"users:a1:x", b"b").unwrap();
    core.update_entry(&tok, 3, &alice, b"users:a1:x", b"c").unwrap();
    core.create_entry(&tok, 4, &alice, b"other:z", b"d").unwrap();
    let (queue, events) = core.subscribe(&tok, 5, &alice, b"users:a1:", 2).unwrap();
    // Every version at or past the watermark, in version order; none below.
    assert_eq!(events.len(), 2);
    assert_eq!(events[0].version, 2);
    assert_eq!(events[0].payload, b"b".to_vec());
    assert_eq!(events[1].version, 3);
    assert_eq!(events[1].payload, b"c".to_vec());
    // Live events below the watermark never reach the queue.
    assert_eq!(core.bus.matching_queues(&alice, b"users:a1:x", 1).len(), 0);
    let hit = core.bus.matching_queues(&alice, b"users:a1:x", 4);
    assert_eq!(hit, vec![queue.clone()]);
    // Other prefixes and other users stay silent.
    assert_eq!(core.bus.matching_queues(&alice, b"other:z", 9).len(), 0);
    assert_eq!(core.bus.matching_queues(b"b2", b"users:a1:x", 9).len(), 0);
    // Another user may not cancel the binding; the owner may.
    let other = user_token(&core, b"b2", 0);
    assert_eq!(core.unsubscribe(&other, 6, &queue), Err(CoreError::PermissionDenied));
    core.unsubscribe(&tok, 6, &queue).unwrap();
    assert_eq!(core.unsubscribe(&tok, 7, &queue), Err(CoreError::NotFound));
}

#[test]
fn import_user_verifies_consent_and_is_idempotent() {
    let mut core = test_core();
    let sk = secp256k1::SecretKey::from_secret_bytes([8u8; 32]).unwrap();
    let pk = secp256k1::PublicKey::from_secret_key(&sk).serialize();
    let user_id = hex::encode(pk).into_bytes();
    let expiry: u64 = 5000;
    let mut msg: Vec<u8> = Vec::new();
    msg.extend_from_slice(&(core.keys.public_key.len() as u64).to_be_bytes());
    msg.extend_from_slice(&core.keys.public_key);
    msg.extend_from_slice(&expiry.to_be_bytes());
    let digest = digest32(&msg);
    let m = secp256k1::Message::from_digest(digest.as_slice().try_into().unwrap());
    let signature = secp256k1::ecdsa::sign(m, &sk).serialize_compact().to_vec();
    let consent = UserConsent {
        user_id: user_id.clone(),
        core_pub_key: core.keys.public_key.clone(),
        expiry,
        signature: signature.clone(),
    };
    let token = core.import_user(&consent, 100).unwrap();
    assert_eq!(token.user_id, user_id);
    assert_eq!(core.imported_users.len(), 1);
    // Re-import does not fail and adds nothing.
    core.import_user(&consent, 200).unwrap();
    assert_eq!(core.imported_users.len(), 1);
    // A lapsed consent is rejected.
    assert_eq!(core.import_user(&consent, 6000).err(), Some(CoreError::Unauthenticated));
    // A consent pledging another core is rejected.
    let other = UserConsent {
        user_id,
        core_pub_key: vec![2u8; 33],
        expiry,
        signature,
    };
    assert_eq!(core.import_user(&other, 100).err(), Some(CoreError::Unauthenticated));
}

#[test]
fn reverse_stream_wins_over_dialling() {
    let mut streams = ReverseStreams::new();
    assert_eq!(streams.route_sync(b"bob-host", b"alice", true), SyncRoute::Dial);
    assert_eq!(streams.route_sync(b"bob-host", b"alice", false), SyncRoute::Queued);
    assert_eq!(streams.register(b"bob-host", b"alice", 11), None);
    // A later task addressed to that peer is pushed, not dialled.
    assert_eq!(streams.route_sync(b"bob-host", b"alice", true), SyncRoute::Reverse(11));
    // Re-registration supersedes and hands the old stream back for closing.
    assert_eq!(streams.register(b"bob-host", b"alice", 12), Some(11));
    assert_eq!(streams.route_sync(b"bob-host", b"alice", false), SyncRoute::Reverse(12));
    assert_eq!(streams.route_sync(b"bob-host", b"carol", true), SyncRoute::Dial);
}

#[test]
fn backoff_doubles_to_the_cap() {
    assert_eq!(backoff_ms(0), 500);
    assert_eq!(backoff_ms(1), 1000);
    assert_eq!(backoff_ms(5), 16000);
    assert_eq!(backoff_ms(6), 30000);
    assert_eq!(backoff_ms(40), 30000);
}

#[test]
fn protocol_names_must_be_bare() {
    assert!(check_protocol_name(b"echo"));
    assert!(!check_protocol_name(b""));
    assert!(!check_protocol_name(b"."));
    assert!(!check_protocol_name(b".."));
    assert!(!check_protocol_name(b"a/b"));
    assert!(!check_protocol_name(b"a\\b"));
}

#[test]
fn manifest_resolution_supports_git_only() {
    let git = Manifest {
        entrypoint: Some(b"python3 main.py".to_vec()),
        git_url: Some(b"https://example.invalid/repo".to_vec()),
        git_commit: Some(b"0123abc".to_vec()),
        has_platform_binary: true,
        has_archive_source: false,
    };
    let (url, commit) = resolve_fetch(&git).unwrap();
    assert_eq!(url, &git.git_url.clone().unwrap());
    assert_eq!(commit, &git.git_commit.clone().unwrap());
    let binary_only = Manifest {
        entrypoint: None,
        git_url: None,
        git_commit: None,
        has_platform_binary: true,
        has_archive_source: false,
    };
    assert_eq!(resolve_fetch(&binary_only).err(), Some(CoreError::Unimplemented));
    let empty = Manifest {
        entrypoint: None,
        git_url: None,
        git_commit: None,
        has_platform_binary: false,
        has_archive_source: false,
    };
    assert_eq!(resolve_fetch(&empty).err(), Some(CoreError::NotFound));
    assert_eq!(resolve_entrypoint(&git, false).err(), Some(CoreError::Internal));
    assert_eq!(resolve_entrypoint(&empty, true).err(), Some(CoreError::NotFound));
    assert_eq!(resolve_entrypoint(&git, true).unwrap(), &b"python3 main.py".to_vec());
}

#[test]
fn stopping_an_instance_needs_the_owner_or_the_host() {
    assert!(may_stop_instance(Privilege::Host, b"bob", b"alice"));
    assert!(may_stop_instance(Privilege::User, b"alice", b"alice"));
    assert!(!may_stop_instance(Privilege::User, b"bob", b"alice"));
    assert_eq!(
        namespaced_key(b"protocol_operator_instances", b"i-1", b"pid"),
        b"protocol_operator_instances:i-1:pid".to_vec()
    );
}

#[test]
fn create_task_allocates_a_fresh_identifier() {
    let mut core = test_core();
    let alice = b"a1".to_vec();
    let tok = user_token(&core, &alice, 0);
    let t = Task {
        task_id: Vec::new(),
        protocol_name: b"sum".to_vec(),
        protocol_param: b"".to_vec(),
        participants: vec![Participant { user_id: alice.clone(), role: b"initiator".to_vec() }],
        parent_task: b"".to_vec(),
        status: TaskStatus::Started,
        expiration_time: 10_000,
        require_agreement: false,
        decisions: vec![None],
    };
    // A subscription on the task namespace sees the creation event.
    let (queue, catch_up) = core.subscribe(&tok, 1, &alice, b"users:a1:tasks:", 0).unwrap();
    assert_eq!(catch_up.len(), 0);
    let (id, queues) = core.create_task(&tok, 1, t, &[1u8; 32]).unwrap();
    assert_eq!(id.len(), 36);
    assert_eq!(queues, vec![queue]);
    assert_eq!(core.tasks.tasks.len(), 1);
    assert_eq!(core.tasks.tasks[0].status, TaskStatus::Started);
    assert_eq!(core.tasks.tasks[0].task_id, id);
    // The initiator's own approving decision is recorded at creation.
    let own = core.tasks.tasks[0].decisions[0].as_ref().unwrap();
    assert!(own.is_approved);
    assert_eq!(own.signer, alice);
    // The task's canonical record is persisted under the initiator's
    // namespace and readable through the spec's own surface.
    let mut key = b"users:a1:tasks:".to_vec();
    key.extend_from_slice(&id);
    let keys_listed = core.read_keys(&tok, 2, &alice, b"users:a1:tasks:", false).unwrap();
    assert_eq!(keys_listed.len(), 1);
    let got = core.read_entries(&tok, 2, &alice, &vec![Selector::ByName(key.clone())]).unwrap();
    assert_eq!(got[0].payload[0], b's');
    // Finishing is refused before approval; the record is rewritten on the
    // commit of the round.
    assert_eq!(core.finish_task(&tok, 3, &id).err(), Some(CoreError::FailedPrecondition));
    core.tasks.mark_fanned_out(&id).unwrap();
    let q2 = core.confirm_task(&tok, 4, &id, true, b"", &[1u8; 32]).unwrap();
    assert_eq!(q2.len(), 1);
    assert_eq!(core.tasks.tasks[0].status, TaskStatus::Approved);
    let got = core.read_entries(&tok, 5, &alice, &vec![Selector::ByName(key.clone())]).unwrap();
    assert_eq!(got[0].payload[0], b'a');
    core.finish_task(&tok, 6, &id).unwrap();
    let got = core.read_entries(&tok, 7, &alice, &vec![Selector::ByName(key)]).unwrap();
    assert_eq!(got[0].payload[0], b'f');
}
