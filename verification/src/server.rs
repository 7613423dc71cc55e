use crate::codec::bytes_eq;
use crate::crypto::{
    digest32, digest32_of, hex_decode, hex_decoded, is_hex_digit, sig_valid, verify_digest,
    KeyMaterial,
};
use crate::errors::CoreError;
use crate::kv::{
    entry_is, has_live_latest, latest_index, version_index, Entry, UserStore,
};
use crate::subscribe::Bus;
use crate::task::{known_contains, Task, TaskStore, TaskStatus};
use crate::token::{authorize, issue_token, Privilege, Token};
use vstd::prelude::*;
use vstd::slice::slice_to_vec;

verus! {

/// Relies on uuid::Uuid::new_v4 and Uuid::to_string: a fresh random
/// identifier; its hyphenated rendering is 36 ASCII characters. Nothing more
/// is assumed of a random value.
#[verifier::external_body]
pub fn fresh_uuid() -> (r: Vec<u8>)
    ensures
        r@.len() == 36,
{
    uuid::Uuid::new_v4().to_string().into_bytes()
}

/// One hosted or imported user and their keyed storage.
pub struct UserRecord {
    pub user_id: Vec<u8>,
    pub store: UserStore,
}

pub open spec fn user_index(s: Seq<UserRecord>, id: Seq<u8>) -> int
    decreases s.len(),
{
    if s.len() == 0 {
        -1
    } else if s.last().user_id@ == id {
        s.len() - 1
    } else {
        user_index(s.drop_last(), id)
    }
}

pub proof fn lemma_user_index_props(s: Seq<UserRecord>, id: Seq<u8>)
    ensures
        -1 <= user_index(s, id) < s.len(),
        user_index(s, id) >= 0 ==> (#[trigger] s[user_index(s, id)]).user_id@ == id,
        user_index(s, id) == -1 ==> forall|i: int|
            0 <= i < s.len() ==> (#[trigger] s[i]).user_id@ != id,
    decreases s.len(),
{
    if s.len() > 0 && s.last().user_id@ != id {
        lemma_user_index_props(s.drop_last(), id);
        assert(forall|i: int| 0 <= i < s.len() - 1 ==> s.drop_last()[i] == #[trigger] s[i]);
    }
}

pub proof fn lemma_user_index_at(s: Seq<UserRecord>, id: Seq<u8>, i: int)
    requires
        0 <= i < s.len(),
        s[i].user_id@ == id,
        forall|j: int| i < j < s.len() ==> (#[trigger] s[j]).user_id@ != id,
    ensures
        user_index(s, id) == i,
    decreases s.len(),
{
    if i < s.len() - 1 {
        assert(s.drop_last()[i] == s[i]);
        lemma_user_index_at(s.drop_last(), id, i);
    }
}

/// One core: key material, per-user storage, the imported-users set, the task
/// store, the subscription registry.
pub struct Core {
    pub keys: KeyMaterial,
    pub users: Vec<UserRecord>,
    pub imported_users: Vec<Vec<u8>>,
    pub tasks: TaskStore,
    pub bus: Bus,
    pub mq_uri: Vec<u8>,
}

/// The auth gate a storage verb passes: a valid unexpired token of user or
/// host privilege, acting on its own subject unless host.
pub open spec fn storage_auth_ok(secret: Seq<u8>, token: Token, now: u64, subject: Seq<u8>) -> bool {
    &&& token.signed_with(secret)
    &&& now < token.expiry
    &&& (token.privilege == Privilege::User || token.privilege == Privilege::Host)
    &&& (token.privilege == Privilege::Host || token.user_id@ == subject)
}

/// Which error a failed authorization returns: `Unauthenticated` for a bad
/// or expired token, `PermissionDenied` when privilege or subject falls
/// short.
pub open spec fn storage_auth_error(
    secret: Seq<u8>,
    token: Token,
    now: u64,
    subject: Seq<u8>,
    e: CoreError,
) -> bool {
    ||| (e == CoreError::Unauthenticated && !(token.signed_with(secret) && now < token.expiry))
    ||| (e == CoreError::PermissionDenied && token.signed_with(secret) && now < token.expiry
        && !storage_auth_ok(secret, token, now, subject))
}

/// The subject's version counter: zero while the user has never written.
pub open spec fn counter_of(users: Seq<UserRecord>, id: Seq<u8>) -> u64 {
    if user_index(users, id) >= 0 {
        users[user_index(users, id)].store.counter
    } else {
        0
    }
}

/// One keyed write against a user list: the subject gains exactly one version
/// under the next counter value; every other user stands exactly as before.
pub open spec fn users_appended(
    pre: Seq<UserRecord>,
    post: Seq<UserRecord>,
    id: Seq<u8>,
    key: Seq<u8>,
    payload: Seq<u8>,
    tomb: bool,
) -> bool {
    let oi = user_index(pre, id);
    let ni = user_index(post, id);
    &&& 0 <= ni < post.len()
    &&& post[ni].user_id@ == id
    &&& counter_of(pre, id) < u64::MAX
    &&& post[ni].store.counter == counter_of(pre, id) + 1
    &&& post[ni].store.entries@.len() == store_of(pre, id).len() + 1
    &&& post[ni].store.entries@.subrange(0, store_of(pre, id).len() as int) == store_of(pre, id)
    &&& entry_is(
        post[ni].store.entries@.last(),
        key,
        (counter_of(pre, id) + 1) as u64,
        payload,
        tomb,
    )
    &&& (oi >= 0 ==> ni == oi && post.len() == pre.len() && (forall|k: int|
        0 <= k < pre.len() && k != oi ==> #[trigger] post[k] == pre[k]))
    &&& (oi == -1 ==> ni == pre.len() && post.len() == pre.len() + 1 && post.subrange(
        0,
        pre.len() as int,
    ) == pre)
}

/// The frame of one storage mutation: the one keyed write of the subject, and
/// the tasks, the bus, the imported set and the key material stand exactly as
/// before.
pub open spec fn storage_mutated(
    pre: Core,
    post: Core,
    id: Seq<u8>,
    key: Seq<u8>,
    payload: Seq<u8>,
    tomb: bool,
) -> bool {
    &&& post.keys == pre.keys
    &&& post.imported_users == pre.imported_users
    &&& post.tasks == pre.tasks
    &&& post.bus == pre.bus
    &&& users_appended(pre.users@, post.users@, id, key, payload, tomb)
}

/// History is never rewritten at the verb level: across one storage
/// mutation of any kind, every version the subject had already written
/// resolves by path to the very entry it resolved to before.
pub proof fn lemma_verbs_preserve_history(
    pre: Core,
    post: Core,
    id: Seq<u8>,
    key: Seq<u8>,
    payload: Seq<u8>,
    tomb: bool,
    v: u64,
)
    requires
        pre.wf(),
        users_appended(pre.users@, post.users@, id, key, payload, tomb),
        version_index(store_of(pre.users@, id), v) >= 0,
    ensures
        version_index(store_of(post.users@, id), v) == version_index(store_of(pre.users@, id), v),
        store_of(post.users@, id)[version_index(store_of(post.users@, id), v)] == store_of(
            pre.users@,
            id,
        )[version_index(store_of(pre.users@, id), v)],
{
    let s1 = store_of(pre.users@, id);
    let ni = user_index(post.users@, id);
    let s2 = post.users@[ni].store.entries@;
    lemma_user_index_props(pre.users@, id);
    assert(s2.len() == s1.len() + 1);
    assert forall|i: int| 0 <= i < s1.len() implies (#[trigger] s1[i]).version < s2.last().version
        by {
        assert(s1[i] == s2.subrange(0, s1.len() as int)[i]);
        let oi = user_index(pre.users@, id);
        assert(pre.users@[oi].store.wf());
        assert(s1[i].version <= counter_of(pre.users@, id));
    }
    crate::kv::lemma_history_reads_stable(s1, s2, v);
    assert(store_of(post.users@, id) == s2);
}

impl Core {
    pub open spec fn wf(self) -> bool {
        &&& self.keys.wf()
        &&& forall|i: int, j: int|
            0 <= i < j < self.users@.len() ==> (#[trigger] self.users@[i]).user_id@ != (
            #[trigger] self.users@[j]).user_id@
        &&& forall|i: int| 0 <= i < self.users@.len() ==> (#[trigger] self.users@[i]).store.wf()
        &&& self.tasks.wf()
        &&& self.bus.wf()
    }

    pub fn new(keys: KeyMaterial, mq_uri: Vec<u8>) -> (r: Self)
        requires
            keys.wf(),
        ensures
            r.wf(),
            r.users@.len() == 0,
            r.imported_users@.len() == 0,
            r.tasks.tasks@.len() == 0,
            r.keys == keys,
    {
        Core {
            keys,
            users: Vec::new(),
            imported_users: Vec::new(),
            tasks: TaskStore::new(),
            bus: Bus::new(),
            mq_uri,
        }
    }

    /// What the unauthenticated info verb reports: the core's public key and
    /// the broker address.
    pub fn request_info(&self) -> (r: (Vec<u8>, Vec<u8>))
        ensures
            r.0@ == self.keys.public_key@,
            r.1@ == self.mq_uri@,
    {
        (slice_to_vec(self.keys.public_key.as_slice()), slice_to_vec(self.mq_uri.as_slice()))
    }

    fn find_user(&self, user_id: &[u8]) -> (r: Option<usize>)
        ensures
            r matches Some(i) ==> user_index(self.users@, user_id@) == i && i < self.users@.len(),
            r is None ==> user_index(self.users@, user_id@) == -1,
    {
        let n = self.users.len();
        let mut i: usize = n;
        while i > 0
            invariant
                i <= n,
                n == self.users@.len(),
                forall|j: int| i <= j < n ==> (#[trigger] self.users@[j]).user_id@ != user_id@,
            decreases i,
        {
            i = i - 1;
            if bytes_eq(self.users[i].user_id.as_slice(), user_id) {
                proof {
                    lemma_user_index_at(self.users@, user_id@, i as int);
                }
                return Some(i);
            }
        }
        proof {
            lemma_user_index_props(self.users@, user_id@);
        }
        None
    }

    /// The index of the subject's record, created empty on first write. The
    /// fresh record's store holds no version and its counter is zero.
    fn user_for_write(&mut self, user_id: &[u8]) -> (r: usize)
        requires
            old(self).wf(),
        ensures
            final(self).wf(),
            final(self).keys == old(self).keys,
            final(self).imported_users == old(self).imported_users,
            final(self).tasks == old(self).tasks,
            final(self).bus == old(self).bus,
            r < final(self).users@.len(),
            final(self).users@[r as int].user_id@ == user_id@,
            user_index(final(self).users@, user_id@) == r,
            final(self).users@[r as int].store.entries@ == store_of(old(self).users@, user_id@),
            final(self).users@[r as int].store.counter == counter_of(old(self).users@, user_id@),
            user_index(old(self).users@, user_id@) >= 0 ==> r == user_index(
                old(self).users@,
                user_id@,
            ) && *final(self) == *old(self),
            user_index(old(self).users@, user_id@) == -1 ==> r == old(self).users@.len() && final(self).users@.subrange(0, old(self).users@.len() as int) == old(self).users@ && final(self).users@.len() == old(self).users@.len() + 1,
    {
        let ghost pre = self.users@;
        match self.find_user(user_id) {
            Some(u) => {
                proof {
                    lemma_user_index_props(pre, user_id@);
                }
                u
            },
            None => {
                proof {
                    lemma_user_index_props(pre, user_id@);
                }
                let u = self.users.len();
                self.users.push(
                    UserRecord { user_id: slice_to_vec(user_id), store: UserStore::new() },
                );
                proof {
                    assert(self.users@.subrange(0, pre.len() as int) =~= pre);
                    assert(forall|k: int| 0 <= k < pre.len() ==> #[trigger] self.users@[k] == pre[k]);
                    lemma_user_index_at(self.users@, user_id@, u as int);
                    assert(self.users@[u as int].store.entries@ =~= store_of(pre, user_id@));
                }
                u
            },
        }
    }

    /// What the Ok side of every storage mutation owes: the history grew by
    /// the one returned entry, reading the key by name now resolves as the
    /// mutation dictates, and the returned queue list is exactly what the bus
    /// owes the event.
    pub open spec fn mutation_ok(
        pre: Core,
        post: Core,
        user_id: Seq<u8>,
        key: Seq<u8>,
        payload: Seq<u8>,
        tomb: bool,
        p: (Entry, Vec<Vec<u8>>),
    ) -> bool {
        &&& storage_mutated(pre, post, user_id, key, payload, tomb)
        &&& entry_is(p.0, key, (counter_of(pre.users@, user_id) + 1) as u64, payload, tomb)
        &&& (!tomb ==> crate::kv::read_name_is(store_of(post.users@, user_id), key, payload))
        &&& (tomb ==> !has_live_latest(store_of(post.users@, user_id), key))
        &&& crate::subscribe::queues_sound(
            p.1@,
            post.bus.subscriptions@,
            user_id,
            key,
            p.0.version,
        )
        &&& crate::subscribe::queues_complete(
            p.1@,
            post.bus.subscriptions@,
            post.bus.subscriptions@.len() as int,
            user_id,
            key,
            p.0.version,
        )
    }

    /// Creates a new key under the subject's store: refused while a live
    /// latest version exists. The subscription bus sees the mutation before
    /// the verb returns: the caller is handed the queues owed the event
    /// alongside the entry.
    pub fn create_entry(
        &mut self,
        token: &Token,
        now: u64,
        user_id: &[u8],
        key_name: &[u8],
        payload: &[u8],
    ) -> (r: Result<(Entry, Vec<Vec<u8>>), CoreError>)
        requires
            old(self).wf(),
        ensures
            final(self).wf(),
            r matches Err(e) ==> *final(self) == *old(self) && (storage_auth_error(
                old(self).keys.jwt_secret@,
                *token,
                now,
                user_id@,
                e,
            ) || (storage_auth_ok(old(self).keys.jwt_secret@, *token, now, user_id@) && ((e
                == CoreError::AlreadyExists && has_live_latest(
                store_of(old(self).users@, user_id@),
                key_name@,
            )) || (e == CoreError::Internal && !has_live_latest(
                store_of(old(self).users@, user_id@),
                key_name@,
            ) && counter_of(old(self).users@, user_id@) == u64::MAX)))),
            r matches Ok(p) ==> storage_auth_ok(old(self).keys.jwt_secret@, *token, now, user_id@)
                && !has_live_latest(store_of(old(self).users@, user_id@), key_name@)
                && Self::mutation_ok(
                *old(self),
                *final(self),
                user_id@,
                key_name@,
                payload@,
                false,
                p,
            ),
    {
        match authorize(
            self.keys.jwt_secret.as_slice(),
            token,
            now,
            false,
            true,
            true,
            user_id,
        ) {
            Ok(_) => {},
            Err(e) => {
                return Err(e);
            },
        }
        match self.find_user(user_id) {
            Some(u) => {
                if self.users[u].store.read_name(key_name).is_ok() {
                    return Err(CoreError::AlreadyExists);
                }
                if self.users[u].store.counter == u64::MAX {
                    return Err(CoreError::Internal);
                }
            },
            None => {
                proof {
                    lemma_user_index_props(self.users@, user_id@);
                    assert(store_of(self.users@, user_id@) =~= Seq::<Entry>::empty());
                }
            },
        }
        let u = self.user_for_write(user_id);
        let ghost mid = *self;
        let entry = match kv_create_at(&mut self.users, u, key_name, payload) {
            Ok(e) => e,
            Err(_) => {
                proof {
                    assert(false);
                }
                return Err(CoreError::Internal);
            },
        };
        proof {
            lemma_user_index_at_same(mid.users@, self.users@, user_id@, u as int);
            crate::kv::lemma_read_name_after_append(
                mid.users@[u as int].store,
                self.users@[u as int].store,
                key_name@,
                payload@,
                false,
                key_name@,
            );
            if user_index(old(self).users@, user_id@) == -1 {
                assert(self.users@.subrange(0, old(self).users@.len() as int) =~= old(self).users@);
            }
        }
        let queues = self.bus.matching_queues(user_id, key_name, entry.version);
        Ok((entry, queues))
    }

    /// Writes a new version unconditionally, as `create_entry` otherwise.
    pub fn update_entry(
        &mut self,
        token: &Token,
        now: u64,
        user_id: &[u8],
        key_name: &[u8],
        payload: &[u8],
    ) -> (r: Result<(Entry, Vec<Vec<u8>>), CoreError>)
        requires
            old(self).wf(),
        ensures
            final(self).wf(),
            r matches Err(e) ==> *final(self) == *old(self) && (storage_auth_error(
                old(self).keys.jwt_secret@,
                *token,
                now,
                user_id@,
                e,
            ) || (storage_auth_ok(old(self).keys.jwt_secret@, *token, now, user_id@) && e
                == CoreError::Internal && counter_of(old(self).users@, user_id@) == u64::MAX)),
            r matches Ok(p) ==> storage_auth_ok(old(self).keys.jwt_secret@, *token, now, user_id@)
                && Self::mutation_ok(
                *old(self),
                *final(self),
                user_id@,
                key_name@,
                payload@,
                false,
                p,
            ),
    {
        match authorize(
            self.keys.jwt_secret.as_slice(),
            token,
            now,
            false,
            true,
            true,
            user_id,
        ) {
            Ok(_) => {},
            Err(e) => {
                return Err(e);
            },
        }
        match self.find_user(user_id) {
            Some(u) => {
                if self.users[u].store.counter == u64::MAX {
                    return Err(CoreError::Internal);
                }
            },
            None => {
                proof {
                    lemma_user_index_props(self.users@, user_id@);
                    assert(store_of(self.users@, user_id@) =~= Seq::<Entry>::empty());
                }
            },
        }
        let u = self.user_for_write(user_id);
        let ghost mid = *self;
        let entry = match kv_update_at(&mut self.users, u, key_name, payload) {
            Ok(e) => e,
            Err(_) => {
                proof {
                    assert(false);
                }
                return Err(CoreError::Internal);
            },
        };
        proof {
            lemma_user_index_at_same(mid.users@, self.users@, user_id@, u as int);
            crate::kv::lemma_read_name_after_append(
                mid.users@[u as int].store,
                self.users@[u as int].store,
                key_name@,
                payload@,
                false,
                key_name@,
            );
            if user_index(old(self).users@, user_id@) == -1 {
                assert(self.users@.subrange(0, old(self).users@.len() as int) =~= old(self).users@);
            }
        }
        let queues = self.bus.matching_queues(user_id, key_name, entry.version);
        Ok((entry, queues))
    }

    /// Tombstones the live latest version, as `create_entry` otherwise.
    pub fn delete_entry(&mut self, token: &Token, now: u64, user_id: &[u8], key_name: &[u8]) -> (r:
        Result<(Entry, Vec<Vec<u8>>), CoreError>)
        requires
            old(self).wf(),
        ensures
            final(self).wf(),
            r matches Err(e) ==> *final(self) == *old(self) && (storage_auth_error(
                old(self).keys.jwt_secret@,
                *token,
                now,
                user_id@,
                e,
            ) || (storage_auth_ok(old(self).keys.jwt_secret@, *token, now, user_id@) && ((e
                == CoreError::NotFound && !has_live_latest(
                store_of(old(self).users@, user_id@),
                key_name@,
            )) || (e == CoreError::Internal && has_live_latest(
                store_of(old(self).users@, user_id@),
                key_name@,
            ) && counter_of(old(self).users@, user_id@) == u64::MAX)))),
            r matches Ok(p) ==> storage_auth_ok(old(self).keys.jwt_secret@, *token, now, user_id@)
                && has_live_latest(store_of(old(self).users@, user_id@), key_name@)
                && Self::mutation_ok(
                *old(self),
                *final(self),
                user_id@,
                key_name@,
                Seq::<u8>::empty(),
                true,
                p,
            ),
    {
        match authorize(
            self.keys.jwt_secret.as_slice(),
            token,
            now,
            false,
            true,
            true,
            user_id,
        ) {
            Ok(_) => {},
            Err(e) => {
                return Err(e);
            },
        }
        let u = match self.find_user(user_id) {
            Some(u) => {
                proof {
                    lemma_user_index_props(self.users@, user_id@);
                }
                if !self.users[u].store.read_name(key_name).is_ok() {
                    return Err(CoreError::NotFound);
                }
                if self.users[u].store.counter == u64::MAX {
                    return Err(CoreError::Internal);
                }
                u
            },
            None => {
                proof {
                    lemma_user_index_props(self.users@, user_id@);
                    assert(store_of(self.users@, user_id@) =~= Seq::<Entry>::empty());
                }
                return Err(CoreError::NotFound);
            },
        };
        let ghost mid = *self;
        let entry = match kv_delete_at(&mut self.users, u, key_name) {
            Ok(e) => e,
            Err(_) => {
                proof {
                    assert(false);
                }
                return Err(CoreError::Internal);
            },
        };
        proof {
            lemma_user_index_at_same(mid.users@, self.users@, user_id@, u as int);
            crate::kv::lemma_read_name_after_append(
                mid.users@[u as int].store,
                self.users@[u as int].store,
                key_name@,
                Seq::<u8>::empty(),
                true,
                key_name@,
            );
        }
        let queues = self.bus.matching_queues(user_id, key_name, entry.version);
        Ok((entry, queues))
    }

    /// One key selector of a read: the latest live version by name, or any
    /// historical version by fully qualified path.
    pub fn read_entries(&self, token: &Token, now: u64, user_id: &[u8], selectors: &Vec<Selector>)
        -> (r: Result<Vec<Entry>, CoreError>)
        requires
            self.wf(),
        ensures
            !storage_auth_ok(self.keys.jwt_secret@, *token, now, user_id@) ==> r is Err,
            r matches Ok(v) ==> storage_auth_ok(self.keys.jwt_secret@, *token, now, user_id@)
                && v@.len() == selectors@.len() && forall|i: int|
                0 <= i < v@.len() ==> (read_selector_spec(
                    store_of(self.users@, user_id@),
                    user_id@,
                    #[trigger] selectors@[i],
                ) matches Ok(e) && crate::subscribe::entry_matches(v@[i], e)),
            r matches Err(e) ==> (!storage_auth_ok(self.keys.jwt_secret@, *token, now, user_id@)
                || exists|i: int|
                0 <= i < selectors@.len() && read_selector_spec(
                    store_of(self.users@, user_id@),
                    user_id@,
                    #[trigger] selectors@[i],
                ) == Err::<Entry, CoreError>(e)),
    {
        match authorize(
            self.keys.jwt_secret.as_slice(),
            token,
            now,
            false,
            true,
            true,
            user_id,
        ) {
            Ok(_) => {},
            Err(e) => {
                return Err(e);
            },
        }
        let ui = self.find_user(user_id);
        let mut out: Vec<Entry> = Vec::new();
        let mut i: usize = 0;
        while i < selectors.len()
            invariant
                self.wf(),
                i <= selectors@.len(),
                out@.len() == i,
                ui matches Some(u) ==> user_index(self.users@, user_id@) == u && u
                    < self.users@.len(),
                ui is None ==> user_index(self.users@, user_id@) == -1,
                forall|j: int|
                    0 <= j < i ==> (read_selector_spec(
                        store_of(self.users@, user_id@),
                        user_id@,
                        #[trigger] selectors@[j],
                    ) matches Ok(e) && crate::subscribe::entry_matches(out@[j], e)),
            decreases selectors@.len() - i,
        {
            let one = match &selectors[i] {
                Selector::ByName(k) => {
                    match ui {
                        Some(u) => {
                            match self.users[u].store.read_name(k.as_slice()) {
                                Ok(e) => Ok(e.duplicate()),
                                Err(e) => Err(e),
                            }
                        },
                        None => Err(CoreError::NotFound),
                    }
                },
                Selector::ByPath(p) => {
                    match crate::codec::parse_key_path(p.as_slice()) {
                        None => Err(CoreError::InvalidArgument),
                        Some(parts) => {
                            if !bytes_eq(parts.0.as_slice(), user_id) {
                                Err(CoreError::PermissionDenied)
                            } else {
                                match ui {
                                    Some(u) => {
                                        match self.users[u].store.read_version(
                                            parts.1.as_slice(),
                                            parts.2,
                                        ) {
                                            Ok(e) => Ok(e.duplicate()),
                                            Err(e) => Err(e),
                                        }
                                    },
                                    None => Err(CoreError::NotFound),
                                }
                            }
                        },
                    }
                },
            };
            match one {
                Ok(e) => {
                    out.push(e);
                },
                Err(e) => {
                    return Err(e);
                },
            }
            i = i + 1;
        }
        Ok(out)
    }

    /// Lists the fully qualified paths under a prefix: every version when
    /// history is asked for, else the live latest versions only.
    pub fn read_keys(
        &self,
        token: &Token,
        now: u64,
        user_id: &[u8],
        prefix: &[u8],
        include_history: bool,
    ) -> (r: Result<Vec<Vec<u8>>, CoreError>)
        requires
            self.wf(),
        ensures
            r is Ok <==> storage_auth_ok(self.keys.jwt_secret@, *token, now, user_id@),
            r matches Err(e) ==> storage_auth_error(
                self.keys.jwt_secret@,
                *token,
                now,
                user_id@,
                e,
            ),
            r matches Ok(v) ==> ({
                let l = listed_keys(store_of(self.users@, user_id@), prefix@, include_history);
                v@.len() == l.len() && forall|i: int|
                    0 <= i < v@.len() ==> (#[trigger] v@[i])@ == crate::codec::path_of(
                        user_id@,
                        l[i].key_name@,
                        l[i].version,
                    )
            }),
    {
        match authorize(
            self.keys.jwt_secret.as_slice(),
            token,
            now,
            false,
            true,
            true,
            user_id,
        ) {
            Ok(_) => {},
            Err(e) => {
                return Err(e);
            },
        }
        let mut out: Vec<Vec<u8>> = Vec::new();
        let u = match self.find_user(user_id) {
            Some(u) => u,
            None => {
                proof {
                    assert(listed_keys(store_of(self.users@, user_id@), prefix@, include_history)
                        =~= Seq::<Entry>::empty());
                }
                return Ok(out);
            },
        };
        let entries = &self.users[u].store.entries;
        let n = entries.len();
        let mut i: usize = 0;
        while i < n
            invariant
                i <= n,
                n == entries@.len(),
                forall|a: int, b: int|
                    0 <= a < b < n ==> (#[trigger] entries@[a]).version < (
                    #[trigger] entries@[b]).version,
                ({
                    let l = listed_prefix(
                        entries@.subrange(0, i as int),
                        entries@,
                        prefix@,
                        include_history,
                    );
                    out@.len() == l.len() && forall|j: int|
                        0 <= j < out@.len() ==> (#[trigger] out@[j])@ == crate::codec::path_of(
                            user_id@,
                            l[j].key_name@,
                            l[j].version,
                        )
                }),
            decreases n - i,
        {
            let ghost pre = entries@.subrange(0, i as int);
            let ghost cur = entries@.subrange(0, i as int + 1);
            proof {
                assert(cur.drop_last() =~= pre);
                assert(cur.last() == entries@[i as int]);
            }
            let e = &entries[i];
            let mut take = crate::codec::starts_with(e.key_name.as_slice(), prefix);
            if take && !include_history {
                take = !e.tombstone && entry_is_latest(entries, i);
            }
            proof {
                if take {
                    assert(listed_prefix(cur, entries@, prefix@, include_history) =~= listed_prefix(
                        pre,
                        entries@,
                        prefix@,
                        include_history,
                    ).push(cur.last()));
                } else {
                    assert(listed_prefix(cur, entries@, prefix@, include_history) =~= listed_prefix(
                        pre,
                        entries@,
                        prefix@,
                        include_history,
                    ));
                }
            }
            if take {
                out.push(crate::codec::build_key_path(user_id, e.key_name.as_slice(), e.version));
            }
            i = i + 1;
        }
        proof {
            assert(entries@.subrange(0, n as int) =~= entries@);
        }
        Ok(out)
    }

    /// Issues a refreshed token for the caller: the privilege may only
    /// narrow.
    pub fn generate_token(&self, token: &Token, privilege: Privilege, expiry: u64, now: u64) -> (r:
        Result<Token, CoreError>)
        ensures
            r matches Ok(t) ==> token.signed_with(self.keys.jwt_secret@) && now < token.expiry
                && crate::token::privilege_le(privilege, token.privilege) && t.user_id@
                == token.user_id@ && t.privilege == privilege && t.issued_at == now && t.expiry
                == expiry && t.signed_with(self.keys.jwt_secret@),
            r matches Err(e) ==> (e == CoreError::Unauthenticated && !(token.signed_with(
                self.keys.jwt_secret@,
            ) && now < token.expiry)) || (e == CoreError::PermissionDenied && token.signed_with(
                self.keys.jwt_secret@,
            ) && now < token.expiry && !crate::token::privilege_le(privilege, token.privilege)),
    {
        crate::token::generate_token(self.keys.jwt_secret.as_slice(), token, privilege, expiry, now)
    }

    /// Accepts a signed consent pledging this core's public key until an
    /// expiry, adds the user to the imported set — idempotently — and hands
    /// back a user token. A pledge that does not verify against the claimed
    /// identity, is meant for another core, or has lapsed, is rejected.
    pub fn import_user(&mut self, consent: &UserConsent, now: u64) -> (r: Result<Token, CoreError>)
        requires
            old(self).wf(),
        ensures
            final(self).wf(),
            final(self).users == old(self).users,
            final(self).tasks == old(self).tasks,
            final(self).bus == old(self).bus,
            final(self).keys == old(self).keys,
            r is Ok <==> consent_ok(*consent, old(self).keys.public_key@, now),
            r matches Ok(t) ==> t.user_id@ == consent.user_id@ && t.privilege == Privilege::User
                && t.expiry == consent.expiry && t.signed_with(old(self).keys.jwt_secret@)
                && known_contains(final(self).imported_users@, consent.user_id@) && (
            known_contains(old(self).imported_users@, consent.user_id@) ==> *final(self) == *old(self)) && (!known_contains(old(self).imported_users@, consent.user_id@) ==> final(self).imported_users@ == old(self).imported_users@.push(
                final(self).imported_users@.last(),
            ) && final(self).imported_users@.last()@ == consent.user_id@),
            r is Err ==> *final(self) == *old(self) && r == Err::<Token, CoreError>(
                CoreError::Unauthenticated,
            ),
    {
        let mut msg: Vec<u8> = Vec::new();
        crate::crypto::push_be8(&mut msg, consent.core_pub_key.len() as u64);
        msg.extend_from_slice(consent.core_pub_key.as_slice());
        crate::crypto::push_be8(&mut msg, consent.expiry);
        proof {
            assert(msg@ =~= consent_message_of(consent.core_pub_key@, consent.expiry));
        }
        if !bytes_eq(consent.core_pub_key.as_slice(), self.keys.public_key.as_slice()) {
            return Err(CoreError::Unauthenticated);
        }
        if !(now < consent.expiry) {
            return Err(CoreError::Unauthenticated);
        }
        let pk = match hex_decode(consent.user_id.as_slice()) {
            Some(pk) => pk,
            None => {
                return Err(CoreError::Unauthenticated);
            },
        };
        let digest = digest32(msg.as_slice());
        if !verify_digest(digest.as_slice(), consent.signature.as_slice(), pk.as_slice()) {
            return Err(CoreError::Unauthenticated);
        }
        let ghost pre = self.imported_users@;
        if !crate::task::contains_bytes(&self.imported_users, consent.user_id.as_slice()) {
            self.imported_users.push(slice_to_vec(consent.user_id.as_slice()));
            proof {
                assert(known_contains(self.imported_users@, consent.user_id@)) by {
                    assert(self.imported_users@[pre.len() as int]@ == consent.user_id@);
                }
            }
        }
        Ok(
            issue_token(
                self.keys.jwt_secret.as_slice(),
                consent.user_id.as_slice(),
                Privilege::User,
                now,
                consent.expiry,
            ),
        )
    }

    /// Opens a subscription: a fresh namespaced queue plus the catch-up the
    /// new queue is owed, every version at or past the watermark under the
    /// prefix, in order, before any live event.
    pub fn subscribe(
        &mut self,
        token: &Token,
        now: u64,
        user_id: &[u8],
        key_prefix: &[u8],
        start_version: u64,
    ) -> (r: Result<(Vec<u8>, Vec<Entry>), CoreError>)
        requires
            old(self).wf(),
        ensures
            final(self).wf(),
            final(self).users == old(self).users,
            final(self).tasks == old(self).tasks,
            final(self).imported_users == old(self).imported_users,
            final(self).keys == old(self).keys,
            r matches Err(e) ==> *final(self) == *old(self) && (Self::user_auth_error(
                old(self).keys.jwt_secret@,
                *token,
                now,
                user_id@,
                e,
            ) || (e == CoreError::Internal && Self::user_auth_ok(
                old(self).keys.jwt_secret@,
                *token,
                now,
                user_id@,
            ) && old(self).bus.queue_counter == u64::MAX)),
            r matches Ok(p) ==> Self::user_auth_ok(old(self).keys.jwt_secret@, *token, now, user_id@)
                && old(self).bus.queue_counter < u64::MAX && final(self).bus.queue_counter == old(self).bus.queue_counter + 1 && p.0@ == crate::subscribe::queue_name_of(
                user_id@,
                (old(self).bus.queue_counter + 1) as u64,
            ) && final(self).bus.subscriptions@.len() == old(self).bus.subscriptions@.len() + 1
                && final(self).bus.subscriptions@.subrange(
                0,
                old(self).bus.subscriptions@.len() as int,
            ) == old(self).bus.subscriptions@ && ({
                let sub = final(self).bus.subscriptions@.last();
                sub.user_id@ == user_id@ && sub.key_prefix@ == key_prefix@ && sub.queue_name@
                    == p.0@ && sub.start_version == start_version
            }) && ({
                let c = crate::subscribe::catch_up_spec(
                    store_of(old(self).users@, user_id@),
                    key_prefix@,
                    start_version,
                );
                p.1@.len() == c.len() && forall|i: int|
                    0 <= i < p.1@.len() ==> crate::subscribe::entry_matches(
                        #[trigger] p.1@[i],
                        c[i],
                    )
            }),
    {
        match authorize(
            self.keys.jwt_secret.as_slice(),
            token,
            now,
            false,
            true,
            false,
            user_id,
        ) {
            Ok(_) => {},
            Err(e) => {
                return Err(e);
            },
        }
        let queue_name = match self.bus.subscribe(user_id, key_prefix, start_version) {
            Ok(q) => q,
            Err(e) => {
                return Err(e);
            },
        };
        let events = match self.find_user(user_id) {
            Some(u) => crate::subscribe::catch_up(&self.users[u].store, key_prefix, start_version),
            None => {
                proof {
                    assert(crate::subscribe::catch_up_spec(
                        Seq::<Entry>::empty(),
                        key_prefix@,
                        start_version,
                    ) =~= Seq::<Entry>::empty());
                }
                Vec::new()
            },
        };
        Ok((queue_name, events))
    }

    /// Cancels a subscription by its queue name: the binding must exist and
    /// belong to the caller, unless the caller is the host.
    pub fn unsubscribe(&mut self, token: &Token, now: u64, queue_name: &[u8]) -> (r: Result<
        (),
        CoreError,
    >)
        requires
            old(self).wf(),
        ensures
            final(self).wf(),
            final(self).users == old(self).users,
            final(self).tasks == old(self).tasks,
            final(self).imported_users == old(self).imported_users,
            final(self).keys == old(self).keys,
            final(self).bus.queue_counter == old(self).bus.queue_counter,
            ({
                let qi = crate::subscribe::queue_index(old(self).bus.subscriptions@, queue_name@);
                let fresh_ok = token.signed_with(old(self).keys.jwt_secret@) && now < token.expiry;
                let priv_ok = token.privilege == Privilege::User;
                let owner_ok = qi >= 0 && old(self).bus.subscriptions@[qi].user_id@
                    == token.user_id@;
                match r {
                    Ok(_) => fresh_ok && priv_ok && owner_ok && final(self).bus.subscriptions@
                        == old(self).bus.subscriptions@.remove(qi),
                    Err(e) => *final(self) == *old(self) && ((e == CoreError::Unauthenticated
                        && !fresh_ok) || (e == CoreError::PermissionDenied && fresh_ok && (!priv_ok
                        || (qi >= 0 && !owner_ok))) || (e == CoreError::NotFound && fresh_ok
                        && priv_ok && qi == -1)),
                }
            }),
    {
        match crate::token::verify_token(self.keys.jwt_secret.as_slice(), token, now) {
            Ok(_) => {},
            Err(e) => {
                return Err(e);
            },
        }
        if !(token.privilege == Privilege::User) {
            return Err(CoreError::PermissionDenied);
        }
        let n = self.bus.subscriptions.len();
        let mut i: usize = n;
        while i > 0
            invariant
                i <= n,
                *self == *old(self),
                old(self).wf(),
                token.signed_with(old(self).keys.jwt_secret@) && now < token.expiry,
                token.privilege == Privilege::User,
                n == self.bus.subscriptions@.len(),
                forall|j: int|
                    i <= j < n ==> (#[trigger] self.bus.subscriptions@[j]).queue_name@
                        != queue_name@,
            decreases i,
        {
            i = i - 1;
            if bytes_eq(self.bus.subscriptions[i].queue_name.as_slice(), queue_name) {
                proof {
                    crate::subscribe::lemma_queue_index_at(
                        self.bus.subscriptions@,
                        queue_name@,
                        i as int,
                    );
                }
                if !bytes_eq(
                    self.bus.subscriptions[i].user_id.as_slice(),
                    token.user_id.as_slice(),
                ) {
                    return Err(CoreError::PermissionDenied);
                }
                let ghost pre = self.bus.subscriptions@;
                self.bus.subscriptions.remove(i);
                proof {
                    pre.remove_ensures(i as int);
                    let post = self.bus.subscriptions@;
                    assert forall|k: int| 0 <= k < post.len() implies (#[trigger] post[k]).queue_name@
                        == crate::subscribe::queue_name_of(post[k].user_id@, post[k].suffix) && 1
                        <= post[k].suffix <= self.bus.queue_counter by {
                        if k < i {
                            assert(post[k] == pre[k]);
                        } else {
                            assert(post[k] == pre[k + 1]);
                        }
                    }
                    assert forall|k: int, l: int| 0 <= k < l < post.len() implies (
                    #[trigger] post[k]).suffix != (#[trigger] post[l]).suffix by {
                        let k0: int = if k < i {
                            k
                        } else {
                            k + 1
                        };
                        let l0: int = if l < i {
                            l
                        } else {
                            l + 1
                        };
                        assert(post[k] == pre[k0] && post[l] == pre[l0]);
                        assert(pre[k0].suffix != pre[l0].suffix);
                    }
                }
                return Ok(());
            }
        }
        proof {
            crate::subscribe::lemma_queue_index_none(self.bus.subscriptions@, queue_name@);
        }
        Err(CoreError::NotFound)
    }

    /// What persisting one task's record means: the task's canonical encoding
    /// is written to the keyed store under its initiator's
    /// `users:<initiator>:tasks:<task_id>` key, and the queues handed back are
    /// exactly what the bus owes that storage event.
    pub open spec fn task_record_written(pre: Core, post: Core, t: Task, queues: Seq<Vec<u8>>) -> bool {
        let owner = t.participants@[0].user_id@;
        let key = crate::task::task_key_of(owner, t.task_id@);
        &&& users_appended(
            pre.users@,
            post.users@,
            owner,
            key,
            crate::task::task_record_of(t),
            false,
        )
        &&& crate::subscribe::queues_sound(
            queues,
            post.bus.subscriptions@,
            owner,
            key,
            (counter_of(pre.users@, owner) + 1) as u64,
        )
        &&& crate::subscribe::queues_complete(
            queues,
            post.bus.subscriptions@,
            post.bus.subscriptions@.len() as int,
            owner,
            key,
            (counter_of(pre.users@, owner) + 1) as u64,
        )
    }

    /// Writes the record of the task at `ti` through its initiator's keyed
    /// store and hands back the queues owed the event.
    fn persist_task_record(&mut self, ti: usize) -> (r: Vec<Vec<u8>>)
        requires
            old(self).wf(),
            ti < old(self).tasks.tasks@.len(),
            old(self).tasks.tasks@[ti as int].participants@.len() > 0,
            counter_of(
                old(self).users@,
                old(self).tasks.tasks@[ti as int].participants@[0].user_id@,
            ) < u64::MAX,
        ensures
            final(self).wf(),
            final(self).tasks == old(self).tasks,
            final(self).imported_users == old(self).imported_users,
            final(self).keys == old(self).keys,
            final(self).bus == old(self).bus,
            Self::task_record_written(
                *old(self),
                *final(self),
                old(self).tasks.tasks@[ti as int],
                r@,
            ),
    {
        let record = crate::task::encode_task_record(&self.tasks.tasks[ti]);
        let owner = slice_to_vec(self.tasks.tasks[ti].participants[0].user_id.as_slice());
        let key = crate::task::task_key(
            owner.as_slice(),
            self.tasks.tasks[ti].task_id.as_slice(),
        );
        match self.find_user(owner.as_slice()) {
            Some(_) => {},
            None => {
                proof {
                    lemma_user_index_props(self.users@, owner@);
                    assert(store_of(self.users@, owner@) =~= Seq::<Entry>::empty());
                }
            },
        }
        let u = self.user_for_write(owner.as_slice());
        let ghost mid = *self;
        let entry = match kv_update_at(&mut self.users, u, key.as_slice(), record.as_slice()) {
            Ok(e) => e,
            Err(_) => {
                proof {
                    assert(false);
                }
                return Vec::new();
            },
        };
        proof {
            lemma_user_index_at_same(mid.users@, self.users@, owner@, u as int);
            if user_index(old(self).users@, owner@) == -1 {
                assert(self.users@.subrange(0, old(self).users@.len() as int) =~= old(self).users@);
            }
        }
        self.bus.matching_queues(owner.as_slice(), key.as_slice(), entry.version)
    }

    /// The authorization a task verb demands: a valid, unexpired token of
    /// user privilege whose subject is the caller itself.
    pub open spec fn user_auth_ok(secret: Seq<u8>, token: Token, now: u64, subject: Seq<u8>) -> bool {
        &&& token.signed_with(secret)
        &&& now < token.expiry
        &&& token.privilege == Privilege::User
        &&& token.user_id@ == subject
    }

    pub open spec fn user_auth_error(
        secret: Seq<u8>,
        token: Token,
        now: u64,
        subject: Seq<u8>,
        e: CoreError,
    ) -> bool {
        ||| (e == CoreError::Unauthenticated && !(token.signed_with(secret) && now < token.expiry))
        ||| (e == CoreError::PermissionDenied && token.signed_with(secret) && now < token.expiry
            && !Self::user_auth_ok(secret, token, now, subject))
    }

    /// Creates a task: a fresh identifier is allocated, the task is persisted
    /// in its starting state exactly once — in the task store and, as its
    /// canonical record, in the initiator's keyed store — and the initiator's
    /// own approving decision is signed and recorded in the first slot. Only
    /// the initiator, the first participant, may create it. The queues owed
    /// the storage event come back with the identifier.
    pub fn create_task(&mut self, token: &Token, now: u64, t: Task, signing_key: &[u8]) -> (r:
        Result<(Vec<u8>, Vec<Vec<u8>>), CoreError>)
        requires
            old(self).wf(),
            t.wf(),
        ensures
            final(self).wf(),
            crate::task::statuses_advance(old(self).tasks.tasks@, final(self).tasks.tasks@),
            final(self).bus == old(self).bus,
            final(self).imported_users == old(self).imported_users,
            final(self).keys == old(self).keys,
            r matches Err(e) ==> *final(self) == *old(self) && ((e == CoreError::InvalidArgument
                && t.participants@.len() == 0) || (t.participants@.len() > 0
                && (Self::user_auth_error(
                old(self).keys.jwt_secret@,
                *token,
                now,
                t.participants@[0].user_id@,
                e,
            ) || (Self::user_auth_ok(
                old(self).keys.jwt_secret@,
                *token,
                now,
                t.participants@[0].user_id@,
            ) && ((e == CoreError::Internal && counter_of(
                old(self).users@,
                t.participants@[0].user_id@,
            ) == u64::MAX) || (counter_of(old(self).users@, t.participants@[0].user_id@)
                < u64::MAX && ((e == CoreError::Unauthenticated && !crate::crypto::sk_ok(
                signing_key@,
            )) || (e == CoreError::AlreadyExists && crate::crypto::sk_ok(signing_key@))))))))),
            r matches Ok(p) ==> p.0@.len() == 36 && t.participants@.len() > 0
                && Self::user_auth_ok(
                old(self).keys.jwt_secret@,
                *token,
                now,
                t.participants@[0].user_id@,
            ) && crate::crypto::sk_ok(signing_key@) && ({
                let nt = final(self).tasks.tasks@.last();
                &&& final(self).tasks.tasks@.len() == old(self).tasks.tasks@.len() + 1
                &&& final(self).tasks.tasks@.subrange(0, old(self).tasks.tasks@.len() as int)
                    == old(self).tasks.tasks@
                &&& nt.task_id@ == p.0@
                &&& nt.status == TaskStatus::Started
                &&& nt.protocol_name@ == t.protocol_name@
                &&& nt.protocol_param@ == t.protocol_param@
                &&& nt.participants@ == t.participants@
                &&& nt.parent_task@ == t.parent_task@
                &&& nt.require_agreement == t.require_agreement
                &&& nt.expiration_time == t.expiration_time
                &&& nt.decisions@.len() == t.decisions@.len()
                &&& (nt.decisions@[0] matches Some(d) && d.is_approved && d.reason@
                    == Seq::<u8>::empty() && d.signer@ == token.user_id@ && d.signature@
                    == crate::crypto::sig_of(
                    crate::crypto::digest32_of(
                        crate::task::decision_message_of(nt, true, Seq::<u8>::empty()),
                    ),
                    signing_key@,
                ))
                &&& (forall|q: int| 0 < q < t.decisions@.len() ==> #[trigger] nt.decisions@[q]
                    == t.decisions@[q])
                &&& Self::task_record_written(*old(self), *final(self), nt, p.1@)
            }),
    {
        if t.participants.len() == 0 {
            return Err(CoreError::InvalidArgument);
        }
        match authorize(
            self.keys.jwt_secret.as_slice(),
            token,
            now,
            false,
            true,
            false,
            t.participants[0].user_id.as_slice(),
        ) {
            Ok(_) => {},
            Err(e) => {
                return Err(e);
            },
        }
        match self.find_user(t.participants[0].user_id.as_slice()) {
            Some(u) => {
                if self.users[u].store.counter == u64::MAX {
                    return Err(CoreError::Internal);
                }
            },
            None => {
                proof {
                    lemma_user_index_props(self.users@, t.participants@[0].user_id@);
                }
            },
        }
        let id = fresh_uuid();
        let mut stored = Task {
            task_id: slice_to_vec(id.as_slice()),
            status: TaskStatus::Started,
            ..t
        };
        let own_vote: [u8; 0] = [];
        let msg = crate::task::encode_decision_message(&stored, true, &own_vote);
        let digest = digest32(msg.as_slice());
        let signature = match crate::crypto::sign_digest(digest.as_slice(), signing_key) {
            Some(sig) => sig,
            None => {
                return Err(CoreError::Unauthenticated);
            },
        };
        let ghost unsigned = stored;
        stored.decisions[0] = Some(
            crate::task::Decision {
                is_approved: true,
                reason: Vec::new(),
                signature,
                signer: slice_to_vec(token.user_id.as_slice()),
            },
        );
        proof {
            assert(own_vote@ =~= Seq::<u8>::empty());
            assert(crate::task::decision_message_of(stored, true, Seq::<u8>::empty())
                == crate::task::decision_message_of(unsigned, true, Seq::<u8>::empty()));
        }
        match self.tasks.create_task(stored) {
            Ok(_) => {},
            Err(e) => {
                return Err(e);
            },
        }
        let ti = self.tasks.tasks.len() - 1;
        let queues = self.persist_task_record(ti);
        Ok((id, queues))
    }

    /// Records the caller's signed vote on a task, commits the agreement
    /// round once every slot is decided, and persists the task's updated
    /// record through the initiator's keyed store, handing back the queues
    /// owed that storage event.
    pub fn confirm_task(
        &mut self,
        token: &Token,
        now: u64,
        task_id: &[u8],
        is_approved: bool,
        reason: &[u8],
        signing_key: &[u8],
    ) -> (r: Result<Vec<Vec<u8>>, CoreError>)
        requires
            old(self).wf(),
        ensures
            final(self).wf(),
            crate::task::statuses_advance(old(self).tasks.tasks@, final(self).tasks.tasks@),
            final(self).bus == old(self).bus,
            final(self).imported_users == old(self).imported_users,
            final(self).keys == old(self).keys,
            r is Err ==> *final(self) == *old(self),
            !(token.signed_with(old(self).keys.jwt_secret@) && now < token.expiry
                && token.privilege == Privilege::User) ==> (r matches Err(e)
                && Self::user_auth_error(old(self).keys.jwt_secret@, *token, now, token.user_id@, e)),
            (token.signed_with(old(self).keys.jwt_secret@) && now < token.expiry
                && token.privilege == Privilege::User) ==> ({
                let idx = crate::task::task_index(old(self).tasks.tasks@, task_id@);
                let blocked = idx >= 0 && old(self).tasks.tasks@[idx].participants@.len() > 0
                    && counter_of(
                    old(self).users@,
                    old(self).tasks.tasks@[idx].participants@[0].user_id@,
                ) == u64::MAX;
                if blocked {
                    r == Err::<Vec<Vec<u8>>, CoreError>(CoreError::Internal)
                } else {
                    &&& TaskStore::confirm_post(
                        old(self).tasks,
                        final(self).tasks,
                        task_id@,
                        token.user_id@,
                        is_approved,
                        reason@,
                        signing_key@,
                        now,
                        match r {
                            Ok(_) => Ok::<(), CoreError>(()),
                            Err(e) => Err(e),
                        },
                    )
                    &&& (r matches Ok(q) ==> idx >= 0 && Self::task_record_written(
                        *old(self),
                        *final(self),
                        final(self).tasks.tasks@[idx],
                        q@,
                    ))
                }
            }),
    {
        match authorize(
            self.keys.jwt_secret.as_slice(),
            token,
            now,
            false,
            true,
            false,
            token.user_id.as_slice(),
        ) {
            Ok(_) => {},
            Err(e) => {
                return Err(e);
            },
        }
        let ti_opt = self.tasks.find(task_id);
        match ti_opt {
            Some(ti) => {
                if self.tasks.tasks[ti].participants.len() > 0 {
                    let sat = match self.find_user(
                        self.tasks.tasks[ti].participants[0].user_id.as_slice(),
                    ) {
                        Some(u) => self.users[u].store.counter == u64::MAX,
                        None => {
                            proof {
                                lemma_user_index_props(
                                    self.users@,
                                    self.tasks.tasks@[ti as int].participants@[0].user_id@,
                                );
                            }
                            false
                        },
                    };
                    if sat {
                        return Err(CoreError::Internal);
                    }
                }
            },
            None => {},
        }
        match self.tasks.confirm_task(
            task_id,
            token.user_id.as_slice(),
            is_approved,
            reason,
            signing_key,
            now,
        ) {
            Ok(_) => {},
            Err(e) => {
                return Err(e);
            },
        }
        let ti = match ti_opt {
            Some(ti) => ti,
            None => {
                proof {
                    assert(false);
                }
                return Err(CoreError::Internal);
            },
        };
        let queues = self.persist_task_record(ti);
        Ok(queues)
    }

    /// Marks an approved task finished — only its initiator may — and
    /// persists the task's updated record through the initiator's keyed
    /// store, handing back the queues owed that storage event.
    pub fn finish_task(&mut self, token: &Token, now: u64, task_id: &[u8]) -> (r: Result<
        Vec<Vec<u8>>,
        CoreError,
    >)
        requires
            old(self).wf(),
        ensures
            final(self).wf(),
            crate::task::statuses_advance(old(self).tasks.tasks@, final(self).tasks.tasks@),
            final(self).bus == old(self).bus,
            final(self).imported_users == old(self).imported_users,
            final(self).keys == old(self).keys,
            r is Err ==> *final(self) == *old(self),
            !(token.signed_with(old(self).keys.jwt_secret@) && now < token.expiry
                && token.privilege == Privilege::User) ==> (r matches Err(e)
                && Self::user_auth_error(old(self).keys.jwt_secret@, *token, now, token.user_id@, e)),
            (token.signed_with(old(self).keys.jwt_secret@) && now < token.expiry
                && token.privilege == Privilege::User) ==> ({
                let idx = crate::task::task_index(old(self).tasks.tasks@, task_id@);
                let blocked = idx >= 0 && old(self).tasks.tasks@[idx].participants@.len() > 0
                    && counter_of(
                    old(self).users@,
                    old(self).tasks.tasks@[idx].participants@[0].user_id@,
                ) == u64::MAX;
                if blocked {
                    r == Err::<Vec<Vec<u8>>, CoreError>(CoreError::Internal)
                } else {
                    &&& TaskStore::finish_post(
                        old(self).tasks,
                        final(self).tasks,
                        task_id@,
                        token.user_id@,
                        match r {
                            Ok(_) => Ok::<(), CoreError>(()),
                            Err(e) => Err(e),
                        },
                    )
                    &&& (r matches Ok(q) ==> idx >= 0 && Self::task_record_written(
                        *old(self),
                        *final(self),
                        final(self).tasks.tasks@[idx],
                        q@,
                    ))
                }
            }),
    {
        match authorize(
            self.keys.jwt_secret.as_slice(),
            token,
            now,
            false,
            true,
            false,
            token.user_id.as_slice(),
        ) {
            Ok(_) => {},
            Err(e) => {
                return Err(e);
            },
        }
        let ti_opt = self.tasks.find(task_id);
        match ti_opt {
            Some(ti) => {
                if self.tasks.tasks[ti].participants.len() > 0 {
                    let sat = match self.find_user(
                        self.tasks.tasks[ti].participants[0].user_id.as_slice(),
                    ) {
                        Some(u) => self.users[u].store.counter == u64::MAX,
                        None => {
                            proof {
                                lemma_user_index_props(
                                    self.users@,
                                    self.tasks.tasks@[ti as int].participants@[0].user_id@,
                                );
                            }
                            false
                        },
                    };
                    if sat {
                        return Err(CoreError::Internal);
                    }
                }
            },
            None => {},
        }
        match self.tasks.finish_task(task_id, token.user_id.as_slice()) {
            Ok(_) => {},
            Err(e) => {
                return Err(e);
            },
        }
        let ti = match ti_opt {
            Some(ti) => ti,
            None => {
                proof {
                    assert(false);
                }
                return Err(CoreError::Internal);
            },
        };
        let queues = self.persist_task_record(ti);
        Ok(queues)
    }

    /// Applies a task sync arriving from a peer core. The peer presents a
    /// host-privileged token; decisions are vetted against the imported-users
    /// set before anything is applied. A sync that changes the local task —
    /// a first copy, or one legal step — also persists the task's updated
    /// record through its initiator's keyed store; the queues owed that
    /// storage event come back, empty for a dropped or decision-free message.
    pub fn inter_core_sync_task(&mut self, token: &Token, now: u64, incoming: &Task) -> (r: Result<
        Vec<Vec<u8>>,
        CoreError,
    >)
        requires
            old(self).wf(),
            incoming.wf(),
        ensures
            final(self).wf(),
            crate::task::statuses_advance(old(self).tasks.tasks@, final(self).tasks.tasks@),
            final(self).bus == old(self).bus,
            final(self).imported_users == old(self).imported_users,
            final(self).keys == old(self).keys,
            r is Err ==> *final(self) == *old(self),
            !(token.signed_with(old(self).keys.jwt_secret@) && now < token.expiry
                && token.privilege == Privilege::Host) ==> (r matches Err(e) && ((e
                == CoreError::Unauthenticated && !(token.signed_with(old(self).keys.jwt_secret@)
                && now < token.expiry)) || (e == CoreError::PermissionDenied && token.signed_with(
                old(self).keys.jwt_secret@,
            ) && now < token.expiry && token.privilege != Privilege::Host))),
            (token.signed_with(old(self).keys.jwt_secret@) && now < token.expiry
                && token.privilege == Privilege::Host) ==> ({
                let pre_idx = crate::task::task_index(old(self).tasks.tasks@, incoming.task_id@);
                let subject = if pre_idx >= 0 {
                    old(self).tasks.tasks@[pre_idx]
                } else {
                    *incoming
                };
                let blocked = subject.participants@.len() > 0 && counter_of(
                    old(self).users@,
                    subject.participants@[0].user_id@,
                ) == u64::MAX;
                if blocked {
                    r == Err::<Vec<Vec<u8>>, CoreError>(CoreError::Internal)
                } else {
                    &&& TaskStore::recv_sync_post(
                        old(self).tasks,
                        final(self).tasks,
                        *incoming,
                        old(self).imported_users@,
                        match r {
                            Ok(_) => Ok::<(), CoreError>(()),
                            Err(e) => Err(e),
                        },
                    )
                    &&& (r matches Ok(q) ==> ({
                        let changed = pre_idx == -1 || (!crate::task::reachable(
                            incoming.status,
                            old(self).tasks.tasks@[pre_idx].status,
                        ) && crate::task::step_ok(
                            old(self).tasks.tasks@[pre_idx].status,
                            incoming.status,
                        ));
                        let idx = if pre_idx >= 0 {
                            pre_idx
                        } else {
                            old(self).tasks.tasks@.len() as int
                        };
                        &&& (!changed ==> *final(self) == *old(self) && q@.len() == 0)
                        &&& (changed && final(self).tasks.tasks@[idx].participants@.len() > 0
                            ==> Self::task_record_written(
                            *old(self),
                            *final(self),
                            final(self).tasks.tasks@[idx],
                            q@,
                        ))
                        &&& (changed && final(self).tasks.tasks@[idx].participants@.len() == 0
                            ==> final(self).users == old(self).users && q@.len() == 0)
                    }))
                }
            }),
    {
        match authorize(
            self.keys.jwt_secret.as_slice(),
            token,
            now,
            false,
            false,
            true,
            token.user_id.as_slice(),
        ) {
            Ok(_) => {},
            Err(e) => {
                return Err(e);
            },
        }
        let pre_len = self.tasks.tasks.len();
        let mut found: bool = false;
        let mut ti: usize = 0;
        let mut status_pre = TaskStatus::Started;
        let mut sat: bool = false;
        match self.tasks.find(incoming.task_id.as_slice()) {
            Some(i) => {
                found = true;
                ti = i;
                status_pre = self.tasks.tasks[i].status;
                if self.tasks.tasks[i].participants.len() > 0 {
                    sat = match self.find_user(
                        self.tasks.tasks[i].participants[0].user_id.as_slice(),
                    ) {
                        Some(u) => self.users[u].store.counter == u64::MAX,
                        None => {
                            proof {
                                lemma_user_index_props(
                                    self.users@,
                                    self.tasks.tasks@[i as int].participants@[0].user_id@,
                                );
                            }
                            false
                        },
                    };
                }
            },
            None => {
                if incoming.participants.len() > 0 {
                    sat = match self.find_user(incoming.participants[0].user_id.as_slice()) {
                        Some(u) => self.users[u].store.counter == u64::MAX,
                        None => {
                            proof {
                                lemma_user_index_props(
                                    self.users@,
                                    incoming.participants@[0].user_id@,
                                );
                            }
                            false
                        },
                    };
                }
            },
        }
        if sat {
            return Err(CoreError::Internal);
        }
        match self.tasks.recv_sync(incoming, &self.imported_users) {
            Ok(_) => {},
            Err(e) => {
                return Err(e);
            },
        }
        if !found {
            if self.tasks.tasks[pre_len].participants.len() > 0 {
                let queues = self.persist_task_record(pre_len);
                return Ok(queues);
            }
            return Ok(Vec::new());
        }
        if !(self.tasks.tasks[ti].status == status_pre) {
            if self.tasks.tasks[ti].participants.len() > 0 {
                let queues = self.persist_task_record(ti);
                return Ok(queues);
            }
            return Ok(Vec::new());
        }
        Ok(Vec::new())
    }
}

/// A user's signed pledge binding this core's public key}

/// A user's signed pledge binding this core's public key until an expiry.
pub struct UserConsent {
    pub user_id: Vec<u8>,
    pub core_pub_key: Vec<u8>,
    pub expiry: u64,
    pub signature: Vec<u8>,
}

/// The canonical bytes a consent signs.
pub open spec fn consent_message_of(core_pub_key: Seq<u8>, expiry: u64) -> Seq<u8> {
    crate::crypto::be8(core_pub_key.len() as u64) + core_pub_key + crate::crypto::be8(expiry)
}

/// A consent is acceptable when it pledges this core's key, has not lapsed,
/// and its signature verifies under the public key its hex identity spells.
pub open spec fn consent_ok(c: UserConsent, core_pub_key: Seq<u8>, now: u64) -> bool {
    &&& c.core_pub_key@ == core_pub_key
    &&& now < c.expiry
    &&& c.user_id@.len() % 2 == 0
    &&& forall|i: int| 0 <= i < c.user_id@.len() ==> is_hex_digit(#[trigger] c.user_id@[i])
    &&& sig_valid(
        digest32_of(consent_message_of(c.core_pub_key@, c.expiry)),
        c.signature@,
        hex_decoded(c.user_id@),
    )
}

/// A read selector: the latest live version by name, or one version by path.
pub enum Selector {
    ByName(Vec<u8>),
    ByPath(Vec<u8>),
}

/// The history a subject's reads resolve against: their store, or nothing
/// while the user has never written.
pub open spec fn store_of(users: Seq<UserRecord>, user_id: Seq<u8>) -> Seq<Entry> {
    if user_index(users, user_id) >= 0 {
        users[user_index(users, user_id)].store.entries@
    } else {
        Seq::empty()
    }
}

/// What one selector resolves to against a history.
pub open spec fn read_selector_spec(store: Seq<Entry>, user_id: Seq<u8>, sel: Selector) -> Result<
    Entry,
    CoreError,
> {
    match sel {
        Selector::ByName(k) => if has_live_latest(store, k@) {
            Ok(store[latest_index(store, k@)])
        } else {
            Err(CoreError::NotFound)
        },
        Selector::ByPath(p) => match crate::codec::parse_path_spec(p@) {
            Option::None => Err(CoreError::InvalidArgument),
            Option::Some(t) => if t.0 != user_id {
                Err(CoreError::PermissionDenied)
            } else if version_index(store, t.2) >= 0 && store[version_index(store, t.2)].key_name@
                == t.1 {
                Ok(store[version_index(store, t.2)])
            } else {
                Err(CoreError::NotFound)
            },
        },
    }
}

/// The entries a key listing names: all versions under the prefix, or the
/// live latest ones.
pub open spec fn listed_keys(s: Seq<Entry>, prefix: Seq<u8>, include_history: bool) -> Seq<Entry> {
    listed_prefix(s, s, prefix, include_history)
}

/// The listing of the slice `s` of a history `full`.
pub open spec fn listed_prefix(
    s: Seq<Entry>,
    full: Seq<Entry>,
    prefix: Seq<u8>,
    include_history: bool,
) -> Seq<Entry> {
    if include_history {
        crate::subscribe::catch_up_spec(s, prefix, 0)
    } else {
        live_latest_keys(s, full, prefix)
    }
}

pub open spec fn live_latest_keys(s: Seq<Entry>, full: Seq<Entry>, prefix: Seq<u8>) -> Seq<Entry>
    decreases s.len(),
{
    if s.len() == 0 {
        Seq::empty()
    } else {
        let rest = live_latest_keys(s.drop_last(), full, prefix);
        let e = s.last();
        if crate::codec::is_prefix_of(prefix, e.key_name@) && !e.tombstone && latest_index(
            full,
            e.key_name@,
        ) == s.len() - 1 {
            rest.push(e)
        } else {
            rest
        }
    }
}

/// Whether index `i` holds the newest version of its own key.
fn entry_is_latest(entries: &Vec<Entry>, i: usize) -> (r: bool)
    requires
        i < entries@.len(),
    ensures
        r == (latest_index(entries@, entries@[i as int].key_name@) == i),
{
    let key = &entries[i].key_name;
    let n = entries.len();
    let mut j: usize = n;
    while j > i + 1
        invariant
            i < j <= n,
            n == entries@.len(),
            key@ == entries@[i as int].key_name@,
            forall|k: int|
                j <= k < n ==> (#[trigger] entries@[k]).key_name@ != entries@[i as int].key_name@,
        decreases j,
    {
        j = j - 1;
        if bytes_eq(entries[j].key_name.as_slice(), key.as_slice()) {
            proof {
                crate::kv::lemma_latest_index_at(
                    entries@,
                    entries@[i as int].key_name@,
                    j as int,
                );
            }
            return false;
        }
    }
    proof {
        crate::kv::lemma_latest_index_at(entries@, entries@[i as int].key_name@, i as int);
    }
    true
}

/// After `set` at index `i` of a user list keeping the identifier, the user's
/// index is unchanged.
pub proof fn lemma_user_index_at_same(pre: Seq<UserRecord>, post: Seq<UserRecord>, id: Seq<u8>, i: int)
    requires
        0 <= i < pre.len(),
        post.len() == pre.len(),
        forall|k: int| 0 <= k < pre.len() && k != i ==> #[trigger] post[k] == pre[k],
        post[i].user_id@ == pre[i].user_id@,
        pre[i].user_id@ == id,
        forall|j: int| i < j < pre.len() ==> (#[trigger] pre[j]).user_id@ != id,
    ensures
        user_index(post, id) == i,
{
    assert(forall|j: int| i < j < post.len() ==> (#[trigger] post[j]).user_id@ != id);
    lemma_user_index_at(post, id, i);
}

/// Applies `create` to the store at index `i`, touching nothing else.
fn kv_create_at(users: &mut Vec<UserRecord>, i: usize, key_name: &[u8], payload: &[u8]) -> (r:
    Result<Entry, CoreError>)
    requires
        i < old(users)@.len(),
        old(users)@[i as int].store.wf(),
    ensures
        final(users)@.len() == old(users)@.len(),
        forall|k: int|
            0 <= k < old(users)@.len() && k != i ==> #[trigger] final(users)@[k] == old(users)@[k],
        final(users)@[i as int].user_id@ == old(users)@[i as int].user_id@,
        final(users)@[i as int].store.wf(),
        r matches Ok(e) ==> !has_live_latest(old(users)@[i as int].store.entries@, key_name@)
            && UserStore::appended(
            old(users)@[i as int].store,
            final(users)@[i as int].store,
            key_name@,
            payload@,
            false,
        ) && entry_is(
            e,
            key_name@,
            (old(users)@[i as int].store.counter + 1) as u64,
            payload@,
            false,
        ),
        r matches Err(err) ==> final(users)@[i as int] == old(users)@[i as int] && ((err
            == CoreError::AlreadyExists && has_live_latest(
            old(users)@[i as int].store.entries@,
            key_name@,
        )) || (err == CoreError::Internal && !has_live_latest(
            old(users)@[i as int].store.entries@,
            key_name@,
        ) && old(users)@[i as int].store.counter == u64::MAX)),
{
    let ghost pre = users@;
    let mut rec = users.remove(i);
    let r = rec.store.create(key_name, payload);
    users.insert(i, rec);
    proof {
        assert(forall|k: int| 0 <= k < pre.len() && k != i ==> #[trigger] users@[k] == pre[k]);
    }
    r
}

/// Applies `update` to the store at index `i`, touching nothing else.
fn kv_update_at(users: &mut Vec<UserRecord>, i: usize, key_name: &[u8], payload: &[u8]) -> (r:
    Result<Entry, CoreError>)
    requires
        i < old(users)@.len(),
        old(users)@[i as int].store.wf(),
    ensures
        final(users)@.len() == old(users)@.len(),
        forall|k: int|
            0 <= k < old(users)@.len() && k != i ==> #[trigger] final(users)@[k] == old(users)@[k],
        final(users)@[i as int].user_id@ == old(users)@[i as int].user_id@,
        final(users)@[i as int].store.wf(),
        r matches Ok(e) ==> UserStore::appended(
            old(users)@[i as int].store,
            final(users)@[i as int].store,
            key_name@,
            payload@,
            false,
        ) && entry_is(
            e,
            key_name@,
            (old(users)@[i as int].store.counter + 1) as u64,
            payload@,
            false,
        ),
        r is Err ==> final(users)@[i as int] == old(users)@[i as int] && r == Err::<
            Entry,
            CoreError,
        >(CoreError::Internal) && old(users)@[i as int].store.counter == u64::MAX,
{
    let ghost pre = users@;
    let mut rec = users.remove(i);
    let r = rec.store.update(key_name, payload);
    users.insert(i, rec);
    proof {
        assert(forall|k: int| 0 <= k < pre.len() && k != i ==> #[trigger] users@[k] == pre[k]);
    }
    r
}

/// Applies `delete` to the store at index `i`, touching nothing else.
fn kv_delete_at(users: &mut Vec<UserRecord>, i: usize, key_name: &[u8]) -> (r: Result<
    Entry,
    CoreError,
>)
    requires
        i < old(users)@.len(),
        old(users)@[i as int].store.wf(),
    ensures
        final(users)@.len() == old(users)@.len(),
        forall|k: int|
            0 <= k < old(users)@.len() && k != i ==> #[trigger] final(users)@[k] == old(users)@[k],
        final(users)@[i as int].user_id@ == old(users)@[i as int].user_id@,
        final(users)@[i as int].store.wf(),
        r matches Ok(e) ==> has_live_latest(old(users)@[i as int].store.entries@, key_name@)
            && UserStore::appended(
            old(users)@[i as int].store,
            final(users)@[i as int].store,
            key_name@,
            Seq::<u8>::empty(),
            true,
        ) && entry_is(
            e,
            key_name@,
            (old(users)@[i as int].store.counter + 1) as u64,
            Seq::<u8>::empty(),
            true,
        ),
        r matches Err(err) ==> final(users)@[i as int] == old(users)@[i as int] && ((err
            == CoreError::NotFound && !has_live_latest(
            old(users)@[i as int].store.entries@,
            key_name@,
        )) || (err == CoreError::Internal && has_live_latest(
            old(users)@[i as int].store.entries@,
            key_name@,
        ) && old(users)@[i as int].store.counter == u64::MAX)),
{
    let ghost pre = users@;
    let mut rec = users.remove(i);
    let r = rec.store.delete(key_name);
    users.insert(i, rec);
    proof {
        assert(forall|k: int| 0 <= k < pre.len() && k != i ==> #[trigger] users@[k] == pre[k]);
    }
    r
}

} // verus!
