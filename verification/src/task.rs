use crate::codec::bytes_eq;
use crate::crypto::{be8, digest32, digest32_of, hex_decode, hex_decoded, is_hex_digit, push_be8};
use crate::crypto::{sig_of, sig_valid, sign_digest, verify_digest};
use crate::errors::CoreError;
use vstd::prelude::*;
use vstd::slice::slice_to_vec;

verus! {

// ---------------------------------------------------------------------------
// The task lifecycle
// ---------------------------------------------------------------------------

#[derive(Clone, Copy, Debug, PartialEq, Eq, Structural)]
pub enum TaskStatus {
    /// Created locally; not yet fanned out.
    Started,
    /// Fanned out; decisions pending.
    Waiting,
    /// Every required decision approves.
    Approved,
    /// Some decision disapproves, or the task lapsed.
    Ignored,
    /// The initiator marked completion.
    Finished,
}

/// The legal single transitions of the lifecycle. `Ignored` is terminal:
/// completion is only reachable through approval.
pub open spec fn step_ok(a: TaskStatus, b: TaskStatus) -> bool {
    ||| (a == TaskStatus::Started && b == TaskStatus::Waiting)
    ||| (a == TaskStatus::Waiting && b == TaskStatus::Approved)
    ||| (a == TaskStatus::Waiting && b == TaskStatus::Ignored)
    ||| (a == TaskStatus::Approved && b == TaskStatus::Finished)
}

/// Reflexive-transitive closure of `step_ok`.
pub open spec fn reachable(a: TaskStatus, b: TaskStatus) -> bool {
    ||| a == b
    ||| (a == TaskStatus::Started && b != TaskStatus::Started)
    ||| (a == TaskStatus::Waiting && (b == TaskStatus::Approved || b == TaskStatus::Ignored || b
        == TaskStatus::Finished))
    ||| (a == TaskStatus::Approved && b == TaskStatus::Finished)
}

pub proof fn lemma_reachable_trans(a: TaskStatus, b: TaskStatus, c: TaskStatus)
    requires
        reachable(a, b),
        reachable(b, c),
    ensures
        reachable(a, c),
{
}

/// Once a branch is committed it is never undone: two mutually reachable
/// statuses are the same status.
pub proof fn lemma_reachable_antisymmetric(a: TaskStatus, b: TaskStatus)
    requires
        reachable(a, b),
        reachable(b, a),
    ensures
        a == b,
{
}

/// Any run of statuses in which each step either stays put or takes one legal
/// transition never leaves the lifecycle: every later status is reachable from
/// every earlier one. The statuses observed at a core are therefore a prefix
/// of the one legal chain `started, waiting, (approved | ignored), finished`,
/// with `finished` only after `approved`.
pub proof fn lemma_status_run_monotone(h: Seq<TaskStatus>)
    requires
        forall|i: int| 0 <= i < h.len() - 1 ==> h[i] == h[i + 1] || step_ok(h[i], #[trigger] h[i
            + 1]),
    ensures
        forall|i: int, j: int| 0 <= i <= j < h.len() ==> reachable(#[trigger] h[i], #[trigger] h[j]),
    decreases h.len(),
{
    if h.len() > 1 {
        let n = h.len() as int;
        let p = h.drop_last();
        assert forall|i: int| 0 <= i < p.len() - 1 implies p[i] == p[i + 1] || step_ok(
            p[i],
            #[trigger] p[i + 1],
        ) by {
            assert(p[i] == h[i] && p[i + 1] == h[i + 1]);
        }
        lemma_status_run_monotone(p);
        assert forall|i: int, j: int| 0 <= i <= j < n implies reachable(
            #[trigger] h[i],
            #[trigger] h[j],
        ) by {
            assert(h[n - 2] == h[n - 2 + 1] || step_ok(h[n - 2], h[n - 2 + 1]));
            assert(reachable(h[n - 2], h[n - 1]));
            if j < n - 1 {
                assert(reachable(p[i], p[j]));
                assert(p[i] == h[i] && p[j] == h[j]);
            } else if i < n - 1 {
                assert(reachable(p[i], p[n - 2]));
                assert(p[i] == h[i] && p[n - 2] == h[n - 2]);
                lemma_reachable_trans(h[i], h[n - 2], h[n - 1]);
            }
        }
    }
}

// ---------------------------------------------------------------------------
// Tasks, participants and decisions
// ---------------------------------------------------------------------------

pub struct Participant {
    pub user_id: Vec<u8>,
    pub role: Vec<u8>,
}

pub struct Decision {
    pub is_approved: bool,
    pub reason: Vec<u8>,
    pub signature: Vec<u8>,
    pub signer: Vec<u8>,
}

pub struct Task {
    pub task_id: Vec<u8>,
    pub protocol_name: Vec<u8>,
    pub protocol_param: Vec<u8>,
    pub participants: Vec<Participant>,
    pub parent_task: Vec<u8>,
    pub status: TaskStatus,
    pub expiration_time: u64,
    pub require_agreement: bool,
    pub decisions: Vec<Option<Decision>>,
}

pub open spec fn participant_is(a: Participant, b: Participant) -> bool {
    a.user_id@ == b.user_id@ && a.role@ == b.role@
}

pub open spec fn decision_is(a: Decision, b: Decision) -> bool {
    a.is_approved == b.is_approved && a.reason@ == b.reason@ && a.signature@ == b.signature@
        && a.signer@ == b.signer@
}

pub open spec fn opt_decision_is(a: Option<Decision>, b: Option<Decision>) -> bool {
    match (a, b) {
        (Option::None, Option::None) => true,
        (Option::Some(x), Option::Some(y)) => decision_is(x, y),
        _ => false,
    }
}

/// Field-for-field agreement on the immutable fields of a task.
pub open spec fn same_core_fields(a: Task, b: Task) -> bool {
    &&& a.task_id@ == b.task_id@
    &&& a.protocol_name@ == b.protocol_name@
    &&& a.protocol_param@ == b.protocol_param@
    &&& a.participants@.len() == b.participants@.len()
    &&& forall|i: int|
        0 <= i < a.participants@.len() ==> participant_is(
            #[trigger] a.participants@[i],
            b.participants@[i],
        )
    &&& a.parent_task@ == b.parent_task@
    &&& a.expiration_time == b.expiration_time
    &&& a.require_agreement == b.require_agreement
}

pub open spec fn same_decisions(a: Task, b: Task) -> bool {
    &&& a.decisions@.len() == b.decisions@.len()
    &&& forall|i: int|
        0 <= i < a.decisions@.len() ==> opt_decision_is(
            #[trigger] a.decisions@[i],
            b.decisions@[i],
        )
}

impl Task {
    /// One decision slot per participant.
    pub open spec fn wf(self) -> bool {
        self.decisions@.len() == self.participants@.len()
    }
}

/// The canonical bytes a participant's vote signs: the task's immutable
/// fields and the decision itself, length-prefixed field by field.
pub open spec fn decision_message_of(t: Task, is_approved: bool, reason: Seq<u8>) -> Seq<u8> {
    be8(t.task_id@.len() as u64) + t.task_id@ + be8(t.protocol_name@.len() as u64)
        + t.protocol_name@ + be8(t.protocol_param@.len() as u64) + t.protocol_param@ + be8(
        reason.len() as u64,
    ) + reason + seq![
        if is_approved {
            1u8
        } else {
            0u8
        },
    ]
}

pub fn encode_decision_message(t: &Task, is_approved: bool, reason: &[u8]) -> (r: Vec<u8>)
    ensures
        r@ == decision_message_of(*t, is_approved, reason@),
{
    let mut out: Vec<u8> = Vec::new();
    push_be8(&mut out, t.task_id.len() as u64);
    out.extend_from_slice(t.task_id.as_slice());
    push_be8(&mut out, t.protocol_name.len() as u64);
    out.extend_from_slice(t.protocol_name.as_slice());
    push_be8(&mut out, t.protocol_param.len() as u64);
    out.extend_from_slice(t.protocol_param.as_slice());
    push_be8(&mut out, reason.len() as u64);
    out.extend_from_slice(reason);
    out.push(if is_approved {
        1u8
    } else {
        0u8
    });
    proof {
        assert(out@ =~= decision_message_of(*t, is_approved, reason@));
    }
    out
}

/// The canonical bytes one participant contributes to the task record.
pub open spec fn participant_enc(p: Participant) -> Seq<u8> {
    be8(p.user_id@.len() as u64) + p.user_id@ + be8(p.role@.len() as u64) + p.role@
}

pub open spec fn participants_enc(ps: Seq<Participant>) -> Seq<u8>
    decreases ps.len(),
{
    if ps.len() == 0 {
        Seq::empty()
    } else {
        participants_enc(ps.drop_last()) + participant_enc(ps.last())
    }
}

/// The canonical bytes one decision slot contributes: a presence flag, then
/// the vote and its fields, length-prefixed.
pub open spec fn decision_enc(d: Option<Decision>) -> Seq<u8> {
    match d {
        Option::None => seq![0u8],
        Option::Some(d) => seq![
            1u8,
            if d.is_approved {
                1u8
            } else {
                0u8
            },
        ] + be8(d.reason@.len() as u64) + d.reason@ + be8(d.signature@.len() as u64) + d.signature@
            + be8(d.signer@.len() as u64) + d.signer@,
    }
}

pub open spec fn decisions_enc(ds: Seq<Option<Decision>>) -> Seq<u8>
    decreases ds.len(),
{
    if ds.len() == 0 {
        Seq::empty()
    } else {
        decisions_enc(ds.drop_last()) + decision_enc(ds.last())
    }
}

pub open spec fn status_byte(s: TaskStatus) -> u8 {
    match s {
        TaskStatus::Started => 0x73,
        TaskStatus::Waiting => 0x77,
        TaskStatus::Approved => 0x61,
        TaskStatus::Ignored => 0x69,
        TaskStatus::Finished => 0x66,
    }
}

fn status_byte_of(s: TaskStatus) -> (r: u8)
    ensures
        r == status_byte(s),
{
    match s {
        TaskStatus::Started => 0x73,
        TaskStatus::Waiting => 0x77,
        TaskStatus::Approved => 0x61,
        TaskStatus::Ignored => 0x69,
        TaskStatus::Finished => 0x66,
    }
}

/// The canonical record of a task, as the keyed store persists it: status and
/// agreement flag, the expiration, then every field length-prefixed.
pub open spec fn task_record_of(t: Task) -> Seq<u8> {
    seq![
        status_byte(t.status),
        if t.require_agreement {
            1u8
        } else {
            0u8
        },
    ] + be8(t.expiration_time) + be8(t.task_id@.len() as u64) + t.task_id@ + be8(
        t.protocol_name@.len() as u64,
    ) + t.protocol_name@ + be8(t.protocol_param@.len() as u64) + t.protocol_param@ + be8(
        t.parent_task@.len() as u64,
    ) + t.parent_task@ + be8(t.participants@.len() as u64) + participants_enc(t.participants@)
        + be8(t.decisions@.len() as u64) + decisions_enc(t.decisions@)
}

pub fn encode_task_record(t: &Task) -> (r: Vec<u8>)
    ensures
        r@ == task_record_of(*t),
{
    let mut out: Vec<u8> = Vec::new();
    out.push(status_byte_of(t.status));
    out.push(
        if t.require_agreement {
            1u8
        } else {
            0u8
        },
    );
    push_be8(&mut out, t.expiration_time);
    push_be8(&mut out, t.task_id.len() as u64);
    out.extend_from_slice(t.task_id.as_slice());
    push_be8(&mut out, t.protocol_name.len() as u64);
    out.extend_from_slice(t.protocol_name.as_slice());
    push_be8(&mut out, t.protocol_param.len() as u64);
    out.extend_from_slice(t.protocol_param.as_slice());
    push_be8(&mut out, t.parent_task.len() as u64);
    out.extend_from_slice(t.parent_task.as_slice());
    push_be8(&mut out, t.participants.len() as u64);
    let ghost head_p = out@;
    let mut i: usize = 0;
    while i < t.participants.len()
        invariant
            i <= t.participants@.len(),
            out@ == head_p + participants_enc(t.participants@.subrange(0, i as int)),
        decreases t.participants@.len() - i,
    {
        let ghost pre = t.participants@.subrange(0, i as int);
        let ghost cur = t.participants@.subrange(0, i as int + 1);
        proof {
            assert(cur.drop_last() =~= pre);
            assert(cur.last() == t.participants@[i as int]);
        }
        let p = &t.participants[i];
        push_be8(&mut out, p.user_id.len() as u64);
        out.extend_from_slice(p.user_id.as_slice());
        push_be8(&mut out, p.role.len() as u64);
        out.extend_from_slice(p.role.as_slice());
        proof {
            assert(out@ =~= head_p + participants_enc(cur));
        }
        i = i + 1;
    }
    proof {
        assert(t.participants@.subrange(0, t.participants@.len() as int) =~= t.participants@);
    }
    push_be8(&mut out, t.decisions.len() as u64);
    let ghost head_d = out@;
    let mut k: usize = 0;
    while k < t.decisions.len()
        invariant
            k <= t.decisions@.len(),
            out@ == head_d + decisions_enc(t.decisions@.subrange(0, k as int)),
        decreases t.decisions@.len() - k,
    {
        let ghost pre = t.decisions@.subrange(0, k as int);
        let ghost cur = t.decisions@.subrange(0, k as int + 1);
        proof {
            assert(cur.drop_last() =~= pre);
            assert(cur.last() == t.decisions@[k as int]);
        }
        match &t.decisions[k] {
            Some(d) => {
                out.push(1u8);
                out.push(
                    if d.is_approved {
                        1u8
                    } else {
                        0u8
                    },
                );
                push_be8(&mut out, d.reason.len() as u64);
                out.extend_from_slice(d.reason.as_slice());
                push_be8(&mut out, d.signature.len() as u64);
                out.extend_from_slice(d.signature.as_slice());
                push_be8(&mut out, d.signer.len() as u64);
                out.extend_from_slice(d.signer.as_slice());
            },
            None => {
                out.push(0u8);
            },
        }
        proof {
            assert(out@ =~= head_d + decisions_enc(cur));
        }
        k = k + 1;
    }
    proof {
        assert(t.decisions@.subrange(0, t.decisions@.len() as int) =~= t.decisions@);
        assert(out@ =~= task_record_of(*t));
    }
    out
}

/// The storage key a task's record lives under:
/// `users:<initiator>:tasks:<task_id>`.
pub open spec fn task_key_of(initiator: Seq<u8>, task_id: Seq<u8>) -> Seq<u8> {
    seq![0x75u8, 0x73u8, 0x65u8, 0x72u8, 0x73u8, 0x3au8] + initiator + seq![
        0x3au8,
        0x74u8,
        0x61u8,
        0x73u8,
        0x6bu8,
        0x73u8,
        0x3au8,
    ] + task_id
}

pub fn task_key(initiator: &[u8], task_id: &[u8]) -> (r: Vec<u8>)
    ensures
        r@ == task_key_of(initiator@, task_id@),
{
    let mut r: Vec<u8> = Vec::new();
    r.push(0x75);
    r.push(0x73);
    r.push(0x65);
    r.push(0x72);
    r.push(0x73);
    r.push(0x3a);
    r.extend_from_slice(initiator);
    r.push(0x3a);
    r.push(0x74);
    r.push(0x61);
    r.push(0x73);
    r.push(0x6b);
    r.push(0x73);
    r.push(0x3a);
    r.extend_from_slice(task_id);
    proof {
        assert(r@ =~= task_key_of(initiator@, task_id@));
    }
    r
}

/// A recorded decision is acceptable when its signer is a known user whose
/// hex identity decodes, and the signature verifies over the canonical bytes
/// under that identity's public key.
pub open spec fn decision_acceptable(t: Task, d: Decision, known: Seq<Vec<u8>>) -> bool {
    &&& known_contains(known, d.signer@)
    &&& d.signer@.len() % 2 == 0
    &&& (forall|i: int| 0 <= i < d.signer@.len() ==> is_hex_digit(#[trigger] d.signer@[i]))
    &&& sig_valid(
        digest32_of(decision_message_of(t, d.is_approved, d.reason@)),
        d.signature@,
        hex_decoded(d.signer@),
    )
}

/// Every decision the task carries is acceptable.
pub open spec fn decisions_ok(t: Task, known: Seq<Vec<u8>>) -> bool {
    forall|k: int|
        0 <= k < t.decisions@.len() ==> match #[trigger] t.decisions@[k] {
            Option::Some(d) => decision_acceptable(t, d, known),
            Option::None => true,
        }
}

pub open spec fn known_contains(known: Seq<Vec<u8>>, id: Seq<u8>) -> bool {
    exists|i: int| 0 <= i < known.len() && (#[trigger] known[i])@ == id
}

/// Membership of a byte string in a list of byte strings.
pub fn contains_bytes(known: &Vec<Vec<u8>>, id: &[u8]) -> (r: bool)
    ensures
        r == known_contains(known@, id@),
{
    let mut i: usize = 0;
    while i < known.len()
        invariant
            i <= known@.len(),
            forall|j: int| 0 <= j < i ==> (#[trigger] known@[j])@ != id@,
        decreases known@.len() - i,
    {
        if bytes_eq(known[i].as_slice(), id) {
            return true;
        }
        i = i + 1;
    }
    false
}

/// Verifies every decision `t` carries against the known-users set.
pub fn check_decisions(t: &Task, known: &Vec<Vec<u8>>) -> (r: bool)
    ensures
        r == decisions_ok(*t, known@),
{
    let mut k: usize = 0;
    while k < t.decisions.len()
        invariant
            k <= t.decisions@.len(),
            forall|j: int|
                0 <= j < k ==> match #[trigger] t.decisions@[j] {
                    Option::Some(d) => decision_acceptable(*t, d, known@),
                    Option::None => true,
                },
        decreases t.decisions@.len() - k,
    {
        match &t.decisions[k] {
            Some(d) => {
                if !contains_bytes(known, d.signer.as_slice()) {
                    return false;
                }
                let pk = match hex_decode(d.signer.as_slice()) {
                    Some(pk) => pk,
                    None => {
                        return false;
                    },
                };
                let msg = encode_decision_message(t, d.is_approved, d.reason.as_slice());
                let digest = digest32(msg.as_slice());
                if !verify_digest(digest.as_slice(), d.signature.as_slice(), pk.as_slice()) {
                    return false;
                }
            },
            None => {},
        }
        k = k + 1;
    }
    true
}

fn clone_decision(d: &Decision) -> (r: Decision)
    ensures
        decision_is(r, *d),
{
    Decision {
        is_approved: d.is_approved,
        reason: slice_to_vec(d.reason.as_slice()),
        signature: slice_to_vec(d.signature.as_slice()),
        signer: slice_to_vec(d.signer.as_slice()),
    }
}

/// A field-for-field copy of a task.
pub fn clone_task(t: &Task) -> (r: Task)
    ensures
        same_core_fields(r, *t),
        same_decisions(r, *t),
        r.status == t.status,
{
    let mut participants: Vec<Participant> = Vec::new();
    let mut i: usize = 0;
    while i < t.participants.len()
        invariant
            i <= t.participants@.len(),
            participants@.len() == i,
            forall|j: int|
                0 <= j < i ==> participant_is(#[trigger] participants@[j], t.participants@[j]),
        decreases t.participants@.len() - i,
    {
        let p = &t.participants[i];
        participants.push(
            Participant {
                user_id: slice_to_vec(p.user_id.as_slice()),
                role: slice_to_vec(p.role.as_slice()),
            },
        );
        i = i + 1;
    }
    let mut decisions: Vec<Option<Decision>> = Vec::new();
    let mut k: usize = 0;
    while k < t.decisions.len()
        invariant
            k <= t.decisions@.len(),
            decisions@.len() == k,
            forall|j: int|
                0 <= j < k ==> opt_decision_is(#[trigger] decisions@[j], t.decisions@[j]),
        decreases t.decisions@.len() - k,
    {
        match &t.decisions[k] {
            Some(d) => decisions.push(Some(clone_decision(d))),
            None => decisions.push(None),
        }
        k = k + 1;
    }
    Task {
        task_id: slice_to_vec(t.task_id.as_slice()),
        protocol_name: slice_to_vec(t.protocol_name.as_slice()),
        protocol_param: slice_to_vec(t.protocol_param.as_slice()),
        participants,
        parent_task: slice_to_vec(t.parent_task.as_slice()),
        status: t.status,
        expiration_time: t.expiration_time,
        require_agreement: t.require_agreement,
        decisions,
    }
}

// ---------------------------------------------------------------------------
// The task store of one core
// ---------------------------------------------------------------------------

/// Index of the task carrying `id`, or -1. Identifiers are unique in a
/// well-formed store.
pub open spec fn task_index(s: Seq<Task>, id: Seq<u8>) -> int
    decreases s.len(),
{
    if s.len() == 0 {
        -1
    } else if s.last().task_id@ == id {
        s.len() - 1
    } else {
        task_index(s.drop_last(), id)
    }
}

pub proof fn lemma_task_index_props(s: Seq<Task>, id: Seq<u8>)
    ensures
        -1 <= task_index(s, id) < s.len(),
        task_index(s, id) >= 0 ==> s[task_index(s, id)].task_id@ == id,
        task_index(s, id) == -1 ==> forall|i: int|
            0 <= i < s.len() ==> (#[trigger] s[i]).task_id@ != id,
    decreases s.len(),
{
    if s.len() > 0 && s.last().task_id@ != id {
        lemma_task_index_props(s.drop_last(), id);
        assert(forall|i: int| 0 <= i < s.len() - 1 ==> s.drop_last()[i] == #[trigger] s[i]);
    }
}

pub proof fn lemma_task_index_at(s: Seq<Task>, id: Seq<u8>, i: int)
    requires
        0 <= i < s.len(),
        s[i].task_id@ == id,
        forall|j: int| i < j < s.len() ==> (#[trigger] s[j]).task_id@ != id,
    ensures
        task_index(s, id) == i,
    decreases s.len(),
{
    if i < s.len() - 1 {
        assert(s.drop_last()[i] == s[i]);
        lemma_task_index_at(s.drop_last(), id, i);
    }
}

/// Two histories with the same identifiers index alike.
pub proof fn lemma_task_index_same_ids(a: Seq<Task>, b: Seq<Task>, id: Seq<u8>)
    requires
        a.len() == b.len(),
        forall|i: int| 0 <= i < a.len() ==> (#[trigger] a[i]).task_id@ == (#[trigger] b[i]).task_id@,
    ensures
        task_index(a, id) == task_index(b, id),
    decreases a.len(),
{
    if a.len() > 0 {
        assert(forall|i: int|
            0 <= i < a.len() - 1 ==> (#[trigger] a.drop_last()[i]).task_id@ == (
            #[trigger] b.drop_last()[i]).task_id@) by {
            assert(forall|i: int|
                0 <= i < a.len() - 1 ==> a.drop_last()[i] == a[i] && #[trigger] b.drop_last()[i]
                    == b[i]);
        }
        lemma_task_index_same_ids(a.drop_last(), b.drop_last(), id);
    }
}

/// No observed transition is ever undone: across a mutation, every task keeps
/// its identifier and its status either stays or takes one legal step.
pub open spec fn statuses_advance(pre: Seq<Task>, post: Seq<Task>) -> bool {
    &&& post.len() >= pre.len()
    &&& forall|k: int|
        0 <= k < pre.len() ==> (#[trigger] post[k]).task_id@ == pre[k].task_id@ && (post[k].status
            == pre[k].status || step_ok(pre[k].status, post[k].status))
}

/// Store lengths never shrink across a chain of advancing states.
pub proof fn lemma_lens_nondecreasing(hist: Seq<Seq<Task>>, i: int)
    requires
        0 <= i < hist.len(),
        forall|m: int| 0 <= m < hist.len() - 1 ==> statuses_advance(hist[m], #[trigger] hist[m + 1]),
    ensures
        hist[0].len() <= hist[i].len(),
    decreases i,
{
    if i > 0 {
        lemma_lens_nondecreasing(hist, i - 1);
        assert(statuses_advance(hist[i - 1], hist[i - 1 + 1]));
    }
}

/// The statuses task `k` shows across a chain of store states.
pub open spec fn task_status_run(hist: Seq<Seq<Task>>, k: int) -> Seq<TaskStatus> {
    hist.map(|i: int, s: Seq<Task>| s[k].status)
}

/// The lifecycle law at one core: across any run of task-store states, each
/// related to the next only by advancing statuses, the statuses any one task
/// shows are a prefix of the single legal chain — every later status is
/// reachable from every earlier one, and a committed branch is never undone.
pub proof fn lemma_observed_statuses_legal(hist: Seq<Seq<Task>>, k: int)
    requires
        hist.len() > 0,
        0 <= k < hist[0].len(),
        forall|m: int| 0 <= m < hist.len() - 1 ==> statuses_advance(hist[m], #[trigger] hist[m + 1]),
    ensures
        forall|i: int, j: int|
            0 <= i <= j < hist.len() ==> reachable(
                #[trigger] task_status_run(hist, k)[i],
                #[trigger] task_status_run(hist, k)[j],
            ),
{
    let h = task_status_run(hist, k);
    assert(h.len() == hist.len());
    assert forall|i: int| 0 <= i < h.len() - 1 implies h[i] == h[i + 1] || step_ok(
        h[i],
        #[trigger] h[i + 1],
    ) by {
        lemma_lens_nondecreasing(hist, i);
        assert(statuses_advance(hist[i], hist[i + 1]));
        assert(h[i] == hist[i][k].status && h[i + 1] == hist[i + 1][k].status);
    }
    lemma_status_run_monotone(h);
    assert(forall|i: int, j: int|
        0 <= i <= j < h.len() ==> reachable(#[trigger] h[i], #[trigger] h[j]));
}

/// The store after has the one task at `idx` moved to status `st`, all else
/// exactly as before.
pub open spec fn only_status_set(pre: Seq<Task>, post: Seq<Task>, idx: int, st: TaskStatus) -> bool {
    &&& post.len() == pre.len()
    &&& forall|k: int| 0 <= k < pre.len() && k != idx ==> #[trigger] post[k] == pre[k]
    &&& 0 <= idx < pre.len()
    &&& same_core_fields(post[idx], pre[idx])
    &&& same_decisions(post[idx], pre[idx])
    &&& post[idx].status == st
}

/// The status a peer-delivered copy is persisted under: a terminal or decided
/// state is adopted as sent; otherwise the copy waits, or is immediately
/// approved when no agreement round is required.
pub open spec fn local_copy_status(t: Task) -> TaskStatus {
    if t.status == TaskStatus::Approved || t.status == TaskStatus::Ignored || t.status
        == TaskStatus::Finished {
        t.status
    } else if !t.require_agreement {
        TaskStatus::Approved
    } else {
        TaskStatus::Waiting
    }
}

pub proof fn lemma_local_copy_reachable(t: Task)
    ensures
        reachable(t.status, local_copy_status(t)),
{
}

pub struct TaskStore {
    pub tasks: Vec<Task>,
}

impl TaskStore {
    /// Identifiers are unique and every task is well formed.
    pub open spec fn wf(self) -> bool {
        &&& forall|i: int, j: int|
            0 <= i < j < self.tasks@.len() ==> (#[trigger] self.tasks@[i]).task_id@ != (
            #[trigger] self.tasks@[j]).task_id@
        &&& forall|i: int| 0 <= i < self.tasks@.len() ==> (#[trigger] self.tasks@[i]).wf()
    }

    pub fn new() -> (r: Self)
        ensures
            r.wf(),
            r.tasks@.len() == 0,
    {
        TaskStore { tasks: Vec::new() }
    }

    /// Finds the task carrying `id`.
    pub fn find(&self, id: &[u8]) -> (r: Option<usize>)
        ensures
            r matches Some(i) ==> task_index(self.tasks@, id@) == i && i < self.tasks@.len(),
            r is None ==> task_index(self.tasks@, id@) == -1,
    {
        let n = self.tasks.len();
        let mut i: usize = n;
        while i > 0
            invariant
                i <= n,
                n == self.tasks@.len(),
                forall|j: int| i <= j < n ==> (#[trigger] self.tasks@[j]).task_id@ != id@,
            decreases i,
        {
            i = i - 1;
            if bytes_eq(self.tasks[i].task_id.as_slice(), id) {
                proof {
                    lemma_task_index_at(self.tasks@, id@, i as int);
                }
                return Some(i);
            }
        }
        proof {
            lemma_task_index_props(self.tasks@, id@);
        }
        None
    }

    /// Persists a freshly created task: exactly once per identifier.
    pub fn create_task(&mut self, t: Task) -> (r: Result<(), CoreError>)
        requires
            old(self).wf(),
            t.wf(),
            t.status == TaskStatus::Started,
        ensures
            final(self).wf(),
            statuses_advance(old(self).tasks@, final(self).tasks@),
            r is Ok ==> task_index(old(self).tasks@, t.task_id@) == -1 && final(self).tasks@
                == old(self).tasks@.push(t),
            r is Err ==> *final(self) == *old(self) && r == Err::<(), CoreError>(
                CoreError::AlreadyExists,
            ) && task_index(old(self).tasks@, t.task_id@) >= 0,
    {
        let ghost pre = self.tasks@;
        match self.find(t.task_id.as_slice()) {
            Some(_) => Err(CoreError::AlreadyExists),
            None => {
                proof {
                    lemma_task_index_props(pre, t.task_id@);
                }
                self.tasks.push(t);
                proof {
                    assert(forall|k: int| 0 <= k < pre.len() ==> #[trigger] self.tasks@[k] == pre[k]);
                }
                Ok(())
            },
        }
    }

    /// Fan-out done: the freshly created task starts waiting for decisions.
    pub fn mark_fanned_out(&mut self, task_id: &[u8]) -> (r: Result<(), CoreError>)
        requires
            old(self).wf(),
        ensures
            final(self).wf(),
            statuses_advance(old(self).tasks@, final(self).tasks@),
            ({
                let idx = task_index(old(self).tasks@, task_id@);
                match r {
                    Ok(_) => idx >= 0 && old(self).tasks@[idx].status == TaskStatus::Started
                        && only_status_set(
                        old(self).tasks@,
                        final(self).tasks@,
                        idx,
                        TaskStatus::Waiting,
                    ),
                    Err(e) => *final(self) == *old(self) && ((e == CoreError::NotFound && idx == -1)
                        || (e == CoreError::FailedPrecondition && idx >= 0
                        && old(self).tasks@[idx].status != TaskStatus::Started)),
                }
            }),
    {
        let i = match self.find(task_id) {
            Some(i) => i,
            None => {
                return Err(CoreError::NotFound);
            },
        };
        if !(self.tasks[i].status == TaskStatus::Started) {
            return Err(CoreError::FailedPrecondition);
        }
        self.set_status(i, TaskStatus::Waiting);
        Ok(())
    }

    /// How a peer-delivered sync relates the store before to the store after,
    /// for every outcome. Decisions are vetted first; a copy of an unknown
    /// task is persisted; a message at or behind the local state is dropped
    /// without effect; a message one legal step ahead advances the local
    /// status; anything else is refused.
    pub open spec fn recv_sync_post(
        pre: TaskStore,
        post: TaskStore,
        t: Task,
        known: Seq<Vec<u8>>,
        r: Result<(), CoreError>,
    ) -> bool {
        let idx = task_index(pre.tasks@, t.task_id@);
        if !decisions_ok(t, known) {
            r == Err::<(), CoreError>(CoreError::Unauthenticated) && post == pre
        } else if idx == -1 {
            r is Ok && post.tasks@.len() == pre.tasks@.len() + 1 && post.tasks@.subrange(
                0,
                pre.tasks@.len() as int,
            ) == pre.tasks@ && same_core_fields(post.tasks@.last(), t) && same_decisions(
                post.tasks@.last(),
                t,
            ) && post.tasks@.last().status == local_copy_status(t)
        } else if reachable(t.status, pre.tasks@[idx].status) {
            r is Ok && post == pre
        } else if step_ok(pre.tasks@[idx].status, t.status) {
            r is Ok && only_status_set(pre.tasks@, post.tasks@, idx, t.status)
        } else {
            r == Err::<(), CoreError>(CoreError::FailedPrecondition) && post == pre
        }
    }

    /// Applies a task sync arriving from a peer core.
    pub fn recv_sync(&mut self, incoming: &Task, known: &Vec<Vec<u8>>) -> (r: Result<
        (),
        CoreError,
    >)
        requires
            old(self).wf(),
            incoming.wf(),
        ensures
            final(self).wf(),
            statuses_advance(old(self).tasks@, final(self).tasks@),
            Self::recv_sync_post(*old(self), *final(self), *incoming, known@, r),
            (exists|k: int|
                0 <= k < incoming.decisions@.len() && match #[trigger] incoming.decisions@[k] {
                    Option::Some(d) => !known_contains(known@, d.signer@),
                    Option::None => false,
                }) ==> r == Err::<(), CoreError>(CoreError::Unauthenticated) && *final(self)
                == *old(self),
    {
        proof {
            if exists|k: int|
                0 <= k < incoming.decisions@.len() && match #[trigger] incoming.decisions@[k] {
                    Option::Some(d) => !known_contains(known@, d.signer@),
                    Option::None => false,
                } {
                let k = choose|k: int|
                    0 <= k < incoming.decisions@.len() && match #[trigger] incoming.decisions@[k] {
                        Option::Some(d) => !known_contains(known@, d.signer@),
                        Option::None => false,
                    };
                assert(!decisions_ok(*incoming, known@));
            }
        }
        if !check_decisions(incoming, known) {
            return Err(CoreError::Unauthenticated);
        }
        let ghost pre = self.tasks@;
        match self.find(incoming.task_id.as_slice()) {
            None => {
                proof {
                    lemma_task_index_props(pre, incoming.task_id@);
                }
                let mut copy = clone_task(incoming);
                copy.status =
                if incoming.status == TaskStatus::Approved || incoming.status
                    == TaskStatus::Ignored || incoming.status == TaskStatus::Finished {
                    incoming.status
                } else if !incoming.require_agreement {
                    TaskStatus::Approved
                } else {
                    TaskStatus::Waiting
                };
                self.tasks.push(copy);
                proof {
                    assert(self.tasks@.subrange(0, pre.len() as int) =~= pre);
                    assert(forall|k: int| 0 <= k < pre.len() ==> #[trigger] self.tasks@[k] == pre[k]);
                }
                Ok(())
            },
            Some(i) => {
                let local_status = self.tasks[i].status;
                let incoming_status = incoming.status;
                let local_reached = local_status == incoming_status || (incoming_status
                    == TaskStatus::Started && !(local_status == TaskStatus::Started)) || (
                incoming_status == TaskStatus::Waiting && (local_status == TaskStatus::Approved
                    || local_status == TaskStatus::Ignored || local_status == TaskStatus::Finished))
                    || (incoming_status == TaskStatus::Approved && local_status
                    == TaskStatus::Finished);
                if local_reached {
                    return Ok(());
                }
                let advances = (local_status == TaskStatus::Started && incoming_status
                    == TaskStatus::Waiting) || (local_status == TaskStatus::Waiting && (
                incoming_status == TaskStatus::Approved || incoming_status == TaskStatus::Ignored))
                    || (local_status == TaskStatus::Approved && incoming_status
                    == TaskStatus::Finished);
                if advances {
                    self.set_status(i, incoming_status);
                    return Ok(());
                }
                Err(CoreError::FailedPrecondition)
            },
        }
    }

    /// Records a participant's signed vote and, once every slot is decided,
    /// commits the agreement round's outcome.
    pub fn confirm_task(
        &mut self,
        task_id: &[u8],
        caller: &[u8],
        is_approved: bool,
        reason: &[u8],
        signing_key: &[u8],
        now: u64,
    ) -> (r: Result<(), CoreError>)
        requires
            old(self).wf(),
        ensures
            final(self).wf(),
            statuses_advance(old(self).tasks@, final(self).tasks@),
            Self::confirm_post(
                *old(self),
                *final(self),
                task_id@,
                caller@,
                is_approved,
                reason@,
                signing_key@,
                now,
                r,
            ),
    {
        let i = match self.find(task_id) {
            Some(i) => i,
            None => {
                return Err(CoreError::NotFound);
            },
        };
        let ghost pre = self.tasks@;
        let mut p: usize = 0;
        let n = self.tasks[i].participants.len();
        let mut found: bool = false;
        while p < n && !found
            invariant
                p <= n,
                i < self.tasks@.len(),
                n == self.tasks@[i as int].participants@.len(),
                !found ==> forall|q: int|
                    0 <= q < p ==> (#[trigger] self.tasks@[i as int].participants@[q]).user_id@
                        != caller@,
                found ==> p < n && self.tasks@[i as int].participants@[p as int].user_id@
                    == caller@,
            decreases n - p + (if found {
                0int
            } else {
                1int
            }),
        {
            if bytes_eq(self.tasks[i].participants[p].user_id.as_slice(), caller) {
                found = true;
            } else {
                p = p + 1;
            }
        }
        if !found {
            return Err(CoreError::PermissionDenied);
        }
        let msg = encode_decision_message(&self.tasks[i], is_approved, reason);
        let digest = digest32(msg.as_slice());
        let signature = match sign_digest(digest.as_slice(), signing_key) {
            Some(s) => s,
            None => {
                return Err(CoreError::Unauthenticated);
            },
        };
        let decision = Decision {
            is_approved,
            reason: slice_to_vec(reason),
            signature,
            signer: slice_to_vec(caller),
        };
        let mut t = self.tasks.remove(i);
        t.decisions[p] = Some(decision);
        let mut undecided: bool = false;
        let mut disapproved: bool = false;
        let mut k: usize = 0;
        while k < t.decisions.len()
            invariant
                k <= t.decisions@.len(),
                undecided == exists|q: int| 0 <= q < k && (#[trigger] t.decisions@[q]) is None,
                disapproved == exists|q: int|
                    0 <= q < k && match #[trigger] t.decisions@[q] {
                        Option::Some(d) => !d.is_approved,
                        Option::None => false,
                    },
            decreases t.decisions@.len() - k,
        {
            match &t.decisions[k] {
                Some(d) => {
                    if !d.is_approved {
                        disapproved = true;
                    }
                },
                None => {
                    undecided = true;
                },
            }
            k = k + 1;
        }
        if t.status == TaskStatus::Waiting && !undecided {
            if now > t.expiration_time || disapproved {
                t.status = TaskStatus::Ignored;
            } else {
                t.status = TaskStatus::Approved;
            }
        }
        self.tasks.insert(i, t);
        proof {
            assert(forall|k: int| 0 <= k < pre.len() && k != i ==> #[trigger] self.tasks@[k] == pre[k]);
            assert(same_core_fields(self.tasks@[i as int], pre[i as int]));
            assert(Self::confirmed_at(
                pre,
                self.tasks@,
                i as int,
                p as int,
                is_approved,
                reason@,
                signing_key@,
                caller@,
                now,
            ));
        }
        Ok(())
    }

    /// The complete outcome relation of `confirm_task`.
    pub open spec fn confirm_post(
        pre: TaskStore,
        post: TaskStore,
        task_id: Seq<u8>,
        caller: Seq<u8>,
        is_approved: bool,
        reason: Seq<u8>,
        signing_key: Seq<u8>,
        now: u64,
        r: Result<(), CoreError>,
    ) -> bool {
        let idx = task_index(pre.tasks@, task_id);
        match r {
            Ok(_) => idx >= 0 && exists|p: int|
                #![auto]
                0 <= p < pre.tasks@[idx].participants@.len()
                    && pre.tasks@[idx].participants@[p].user_id@ == caller && Self::confirmed_at(
                    pre.tasks@,
                    post.tasks@,
                    idx,
                    p,
                    is_approved,
                    reason,
                    signing_key,
                    caller,
                    now,
                ),
            Err(e) => post == pre && ((e == CoreError::NotFound && idx == -1) || (e
                == CoreError::PermissionDenied && idx >= 0 && (forall|p: int|
                0 <= p < pre.tasks@[idx].participants@.len() ==> (
                #[trigger] pre.tasks@[idx].participants@[p]).user_id@ != caller)) || (e
                == CoreError::Unauthenticated && !crate::crypto::sk_ok(signing_key))),
        }
    }

    /// What a recorded vote does to the store: the one slot `p` of task `idx`
    /// now carries the caller's signed decision, and the status commits the
    /// round's outcome exactly when the last slot was filled while waiting.
    pub open spec fn confirmed_at(
        pre: Seq<Task>,
        post: Seq<Task>,
        idx: int,
        p: int,
        is_approved: bool,
        reason: Seq<u8>,
        signing_key: Seq<u8>,
        caller: Seq<u8>,
        now: u64,
    ) -> bool {
        let t0 = pre[idx];
        let t1 = post[idx];
        let decided = !(exists|q: int|
            0 <= q < t1.decisions@.len() && (#[trigger] t1.decisions@[q]) is None);
        let disapproved = exists|q: int|
            0 <= q < t1.decisions@.len() && match #[trigger] t1.decisions@[q] {
                Option::Some(d) => !d.is_approved,
                Option::None => false,
            };
        &&& post.len() == pre.len()
        &&& 0 <= idx < pre.len()
        &&& forall|k: int| 0 <= k < pre.len() && k != idx ==> #[trigger] post[k] == pre[k]
        &&& same_core_fields(t1, t0)
        &&& t1.decisions@.len() == t0.decisions@.len()
        &&& 0 <= p < t0.decisions@.len()
        &&& forall|q: int| 0 <= q < t0.decisions@.len() && q != p ==> #[trigger] t1.decisions@[q]
            == t0.decisions@[q]
        &&& t1.decisions@[p] matches Some(d) && d.is_approved == is_approved && d.reason@ == reason
            && d.signer@ == caller && d.signature@ == sig_of(
            digest32_of(decision_message_of(t0, is_approved, reason)),
            signing_key,
        )
        &&& t1.status == (if t0.status == TaskStatus::Waiting && decided {
            if now > t0.expiration_time || disapproved {
                TaskStatus::Ignored
            } else {
                TaskStatus::Approved
            }
        } else {
            t0.status
        })
    }

    /// The complete outcome relation of `finish_task`: the initiator is the
    /// first participant, and only an approved task can be finished.
    pub open spec fn finish_post(
        pre: TaskStore,
        post: TaskStore,
        task_id: Seq<u8>,
        caller: Seq<u8>,
        r: Result<(), CoreError>,
    ) -> bool {
        let idx = task_index(pre.tasks@, task_id);
        let initiated = idx >= 0 && pre.tasks@[idx].participants@.len() > 0
            && pre.tasks@[idx].participants@[0].user_id@ == caller;
        match r {
            Ok(_) => initiated && pre.tasks@[idx].status == TaskStatus::Approved
                && only_status_set(pre.tasks@, post.tasks@, idx, TaskStatus::Finished),
            Err(e) => post == pre && ((e == CoreError::NotFound && idx == -1) || (e
                == CoreError::PermissionDenied && idx >= 0 && !initiated) || (e
                == CoreError::FailedPrecondition && initiated && pre.tasks@[idx].status
                != TaskStatus::Approved)),
        }
    }

    /// Completion: only the initiator, and only of an approved task.
    pub fn finish_task(&mut self, task_id: &[u8], caller: &[u8]) -> (r: Result<(), CoreError>)
        requires
            old(self).wf(),
        ensures
            final(self).wf(),
            statuses_advance(old(self).tasks@, final(self).tasks@),
            Self::finish_post(*old(self), *final(self), task_id@, caller@, r),
    {
        let i = match self.find(task_id) {
            Some(i) => i,
            None => {
                return Err(CoreError::NotFound);
            },
        };
        if self.tasks[i].participants.len() == 0 || !bytes_eq(
            self.tasks[i].participants[0].user_id.as_slice(),
            caller,
        ) {
            return Err(CoreError::PermissionDenied);
        }
        if !(self.tasks[i].status == TaskStatus::Approved) {
            return Err(CoreError::FailedPrecondition);
        }
        self.set_status(i, TaskStatus::Finished);
        Ok(())
    }

    /// Re-delivery law: once a sync of `t` has been accepted, delivering the
    /// very same message again leaves the task store exactly as it was, and is
    /// again acknowledged.
    pub proof fn lemma_redelivery_noop(
        s0: TaskStore,
        s1: TaskStore,
        s2: TaskStore,
        t: Task,
        known: Seq<Vec<u8>>,
        r2: Result<(), CoreError>,
    )
        requires
            s0.wf(),
            Self::recv_sync_post(s0, s1, t, known, Ok(())),
            Self::recv_sync_post(s1, s2, t, known, r2),
        ensures
            s2 == s1,
            r2 is Ok,
    {
        let idx0 = task_index(s0.tasks@, t.task_id@);
        lemma_task_index_props(s0.tasks@, t.task_id@);
        if idx0 == -1 {
            let n0 = s0.tasks@.len() as int;
            assert(s1.tasks@[n0].task_id@ == t.task_id@);
            assert(forall|j: int| 0 <= j < n0 ==> #[trigger] s1.tasks@[j] == s0.tasks@[j]) by {
                assert(forall|j: int|
                    0 <= j < n0 ==> #[trigger] s1.tasks@.subrange(0, n0)[j] == s1.tasks@[j]);
            }
            lemma_task_index_at(s1.tasks@, t.task_id@, n0);
            lemma_local_copy_reachable(t);
            assert(reachable(t.status, s1.tasks@[n0].status));
        } else if reachable(t.status, s0.tasks@[idx0].status) {
        } else if step_ok(s0.tasks@[idx0].status, t.status) {
            assert(forall|k: int|
                0 <= k < s0.tasks@.len() ==> (#[trigger] s0.tasks@[k]).task_id@ == (
                #[trigger] s1.tasks@[k]).task_id@);
            lemma_task_index_same_ids(s0.tasks@, s1.tasks@, t.task_id@);
            assert(s1.tasks@[idx0].status == t.status);
        }
    }

    /// Replaces the status of the task at `i`.
    fn set_status(&mut self, i: usize, st: TaskStatus)
        requires
            old(self).wf(),
            i < old(self).tasks@.len(),
            old(self).tasks@[i as int].status == st || step_ok(old(self).tasks@[i as int].status, st),
        ensures
            final(self).wf(),
            only_status_set(old(self).tasks@, final(self).tasks@, i as int, st),
            statuses_advance(old(self).tasks@, final(self).tasks@),
    {
        let ghost pre = self.tasks@;
        let mut t = self.tasks.remove(i);
        t.status = st;
        self.tasks.insert(i, t);
        proof {
            assert(forall|k: int| 0 <= k < pre.len() && k != i ==> #[trigger] self.tasks@[k] == pre[k]);
            assert(same_core_fields(self.tasks@[i as int], pre[i as int]));
            assert(same_decisions(self.tasks@[i as int], pre[i as int]));
        }
    }
}

} // verus!
