use colink_core::crypto::{derive_public_key, hex_encode};
use colink_core::errors::CoreError;
use colink_core::task::{
    Decision, Participant, Task, TaskStatus, TaskStore,
};

fn user_id_of(sk: &[u8; 32]) -> Vec<u8> {
    hex_encode(&derive_public_key(sk).unwrap())
}

fn two_party_task(alice: &[u8], bob: &[u8], status: TaskStatus) -> Task {
    Task {
        task_id: b"task-1".to_vec(),
        protocol_name: b"sum".to_vec(),
        protocol_param: b"".to_vec(),
        participants: vec![
            Participant { user_id: alice.to_vec(), role: b"initiator".to_vec() },
            Participant { user_id: bob.to_vec(), role: b"receiver".to_vec() },
        ],
        parent_task: b"".to_vec(),
        status,
        expiration_time: 1_000_000,
        require_agreement: true,
        decisions: vec![None, None],
    }
}

fn statuses(store: &TaskStore) -> Vec<TaskStatus> {
    store.tasks.iter().map(|t| t.status).collect()
}

#[test]
fn two_participant_approve_runs_the_lifecycle() {
    let sk_a = [1u8; 32];
    let sk_b = [2u8; 32];
    let alice = user_id_of(&sk_a);
    let bob = user_id_of(&sk_b);
    let known = vec![alice.clone(), bob.clone()];

    // Alice's core: create, fan out, collect both approvals.
    let mut alice_core = TaskStore::new();
    alice_core.create_task(two_party_task(&alice, &bob, TaskStatus::Started)).unwrap();
    assert_eq!(alice_core.tasks[0].status, TaskStatus::Started);
    alice_core.mark_fanned_out(b"task-1").unwrap();
    assert_eq!(alice_core.tasks[0].status, TaskStatus::Waiting);
    alice_core.confirm_task(b"task-1", &alice, true, b"", &sk_a, 10).unwrap();
    assert_eq!(alice_core.tasks[0].status, TaskStatus::Waiting);
    alice_core.confirm_task(b"task-1", &bob, true, b"", &sk_b, 10).unwrap();
    assert_eq!(alice_core.tasks[0].status, TaskStatus::Approved);
    alice_core.finish_task(b"task-1", &alice).unwrap();
    assert_eq!(alice_core.tasks[0].status, TaskStatus::Finished);

    // Bob's core observes the same task through syncs: a legal prefix.
    let mut bob_core = TaskStore::new();
    bob_core.recv_sync(&two_party_task(&alice, &bob, TaskStatus::Waiting), &known).unwrap();
    assert_eq!(bob_core.tasks[0].status, TaskStatus::Waiting);
    bob_core.recv_sync(&two_party_task(&alice, &bob, TaskStatus::Approved), &known).unwrap();
    assert_eq!(bob_core.tasks[0].status, TaskStatus::Approved);
    bob_core.recv_sync(&two_party_task(&alice, &bob, TaskStatus::Finished), &known).unwrap();
    assert_eq!(bob_core.tasks[0].status, TaskStatus::Finished);
}

#[test]
fn disapprove_short_circuits_and_finish_fails() {
    let sk_a = [1u8; 32];
    let sk_b = [2u8; 32];
    let alice = user_id_of(&sk_a);
    let bob = user_id_of(&sk_b);

    let mut core = TaskStore::new();
    core.create_task(two_party_task(&alice, &bob, TaskStatus::Started)).unwrap();
    core.mark_fanned_out(b"task-1").unwrap();
    core.confirm_task(b"task-1", &alice, true, b"", &sk_a, 10).unwrap();
    core.confirm_task(b"task-1", &bob, false, b"no", &sk_b, 10).unwrap();
    assert_eq!(core.tasks[0].status, TaskStatus::Ignored);
    assert_eq!(core.finish_task(b"task-1", &alice).err(), Some(CoreError::FailedPrecondition));
}

#[test]
fn lapsed_task_is_ignored_on_decision() {
    let sk_a = [1u8; 32];
    let sk_b = [2u8; 32];
    let alice = user_id_of(&sk_a);
    let bob = user_id_of(&sk_b);
    let mut core = TaskStore::new();
    core.create_task(two_party_task(&alice, &bob, TaskStatus::Started)).unwrap();
    core.mark_fanned_out(b"task-1").unwrap();
    core.confirm_task(b"task-1", &alice, true, b"", &sk_a, 10).unwrap();
    // Both approve, but past the expiration time the round lapses.
    core.confirm_task(b"task-1", &bob, true, b"", &sk_b, 2_000_000).unwrap();
    assert_eq!(core.tasks[0].status, TaskStatus::Ignored);
}

#[test]
fn redelivered_sync_is_a_no_op() {
    let sk_a = [1u8; 32];
    let sk_b = [2u8; 32];
    let alice = user_id_of(&sk_a);
    let bob = user_id_of(&sk_b);
    let known = vec![alice.clone(), bob.clone()];

    let mut core = TaskStore::new();
    let incoming = two_party_task(&alice, &bob, TaskStatus::Waiting);
    core.recv_sync(&incoming, &known).unwrap();
    let before = statuses(&core);
    let before_len = core.tasks.len();
    // The identical message again: acknowledged, state untouched.
    core.recv_sync(&incoming, &known).unwrap();
    assert_eq!(statuses(&core), before);
    assert_eq!(core.tasks.len(), before_len);
}

#[test]
fn stale_sync_is_dropped_and_illegal_sync_refused() {
    let sk_a = [1u8; 32];
    let sk_b = [2u8; 32];
    let alice = user_id_of(&sk_a);
    let bob = user_id_of(&sk_b);
    let known = vec![alice.clone(), bob.clone()];

    let mut core = TaskStore::new();
    core.recv_sync(&two_party_task(&alice, &bob, TaskStatus::Approved), &known).unwrap();
    assert_eq!(core.tasks[0].status, TaskStatus::Approved);
    // Older state: dropped without error.
    core.recv_sync(&two_party_task(&alice, &bob, TaskStatus::Waiting), &known).unwrap();
    assert_eq!(core.tasks[0].status, TaskStatus::Approved);
    // A jump that skips the legal chain is refused.
    let mut ignored = two_party_task(&alice, &bob, TaskStatus::Ignored);
    ignored.task_id = b"task-1".to_vec();
    assert_eq!(core.recv_sync(&ignored, &known).err(), Some(CoreError::FailedPrecondition));
    assert_eq!(core.tasks[0].status, TaskStatus::Approved);
}

#[test]
fn unknown_signer_is_rejected() {
    let sk_a = [1u8; 32];
    let sk_b = [2u8; 32];
    let sk_c = [3u8; 32];
    let alice = user_id_of(&sk_a);
    let bob = user_id_of(&sk_b);
    let charlie = user_id_of(&sk_c);
    let known = vec![alice.clone(), bob.clone()];

    let mut incoming = two_party_task(&alice, &bob, TaskStatus::Waiting);
    incoming.decisions[0] = Some(Decision {
        is_approved: true,
        reason: b"".to_vec(),
        signature: vec![0u8; 64],
        signer: charlie,
    });
    let mut core = TaskStore::new();
    assert_eq!(core.recv_sync(&incoming, &known).err(), Some(CoreError::Unauthenticated));
    assert_eq!(core.tasks.len(), 0);
}

#[test]
fn forged_decision_signature_is_rejected() {
    let sk_a = [1u8; 32];
    let sk_b = [2u8; 32];
    let alice = user_id_of(&sk_a);
    let bob = user_id_of(&sk_b);
    let known = vec![alice.clone(), bob.clone()];

    let mut incoming = two_party_task(&alice, &bob, TaskStatus::Waiting);
    incoming.decisions[0] = Some(Decision {
        is_approved: true,
        reason: b"".to_vec(),
        signature: vec![0u8; 64],
        signer: alice.clone(),
    });
    let mut core = TaskStore::new();
    assert_eq!(core.recv_sync(&incoming, &known).err(), Some(CoreError::Unauthenticated));
}

#[test]
fn genuine_decision_signature_is_accepted() {
    let sk_b = [2u8; 32];
    let sk_a = [1u8; 32];
    let alice = user_id_of(&sk_a);
    let bob = user_id_of(&sk_b);
    let known = vec![alice.clone(), bob.clone()];

    // Record a decision through confirm_task, then replay the task with that
    // very decision through the sync gate: the signature verifies.
    let mut origin = TaskStore::new();
    origin.create_task(two_party_task(&alice, &bob, TaskStatus::Started)).unwrap();
    origin.confirm_task(b"task-1", &bob, true, b"ok", &sk_b, 10).unwrap();
    let recorded = origin.tasks[0].decisions[1].as_ref().unwrap();
    let mut incoming = two_party_task(&alice, &bob, TaskStatus::Waiting);
    incoming.decisions[1] = Some(Decision {
        is_approved: recorded.is_approved,
        reason: recorded.reason.clone(),
        signature: recorded.signature.clone(),
        signer: recorded.signer.clone(),
    });
    let mut core = TaskStore::new();
    assert!(core.recv_sync(&incoming, &known).is_ok());
    assert_eq!(core.tasks.len(), 1);
}

#[test]
fn only_the_initiator_finishes() {
    let sk_a = [1u8; 32];
    let sk_b = [2u8; 32];
    let alice = user_id_of(&sk_a);
    let bob = user_id_of(&sk_b);
    let mut core = TaskStore::new();
    core.create_task(two_party_task(&alice, &bob, TaskStatus::Started)).unwrap();
    core.mark_fanned_out(b"task-1").unwrap();
    core.confirm_task(b"task-1", &alice, true, b"", &sk_a, 10).unwrap();
    core.confirm_task(b"task-1", &bob, true, b"", &sk_b, 10).unwrap();
    assert_eq!(core.finish_task(b"task-1", &bob).err(), Some(CoreError::PermissionDenied));
    assert_eq!(core.finish_task(b"missing", &alice).err(), Some(CoreError::NotFound));
    core.finish_task(b"task-1", &alice).unwrap();
}

#[test]
fn task_is_created_exactly_once_per_identifier() {
    let sk_a = [1u8; 32];
    let sk_b = [2u8; 32];
    let alice = user_id_of(&sk_a);
    let bob = user_id_of(&sk_b);
    let mut core = TaskStore::new();
    core.create_task(two_party_task(&alice, &bob, TaskStatus::Started)).unwrap();
    assert_eq!(
        core.create_task(two_party_task(&alice, &bob, TaskStatus::Started)).err(),
        Some(CoreError::AlreadyExists)
    );
}
