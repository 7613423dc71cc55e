use crate::codec::bytes_eq;
use crate::errors::CoreError;
use vstd::prelude::*;
use vstd::slice::slice_to_vec;

verus! {

/// One immutable version in a user's history. The version doubles as the
/// entry's timestamp: the store's clock is the per-user version counter.
pub struct Entry {
    pub key_name: Vec<u8>,
    pub version: u64,
    pub payload: Vec<u8>,
    pub tombstone: bool,
}

pub open spec fn entry_is(e: Entry, key: Seq<u8>, version: u64, payload: Seq<u8>, tomb: bool) -> bool {
    &&& e.key_name@ == key
    &&& e.version == version
    &&& e.payload@ == payload
    &&& e.tombstone == tomb
}

impl Entry {
    /// A field-for-field copy.
    pub fn duplicate(&self) -> (r: Entry)
        ensures
            entry_is(r, self.key_name@, self.version, self.payload@, self.tombstone),
    {
        Entry {
            key_name: slice_to_vec(self.key_name.as_slice()),
            version: self.version,
            payload: slice_to_vec(self.payload.as_slice()),
            tombstone: self.tombstone,
        }
    }
}

/// Index of the newest version of `key` in the history, or -1.
pub open spec fn latest_index(s: Seq<Entry>, key: Seq<u8>) -> int
    decreases s.len(),
{
    if s.len() == 0 {
        -1
    } else if s.last().key_name@ == key {
        s.len() - 1
    } else {
        latest_index(s.drop_last(), key)
    }
}

/// Index of the entry that carries version `v`, or -1.
pub open spec fn version_index(s: Seq<Entry>, v: u64) -> int
    decreases s.len(),
{
    if s.len() == 0 {
        -1
    } else if s.last().version == v {
        s.len() - 1
    } else {
        version_index(s.drop_last(), v)
    }
}

/// Whether the newest version of `key` exists and is not a tombstone.
pub open spec fn has_live_latest(s: Seq<Entry>, key: Seq<u8>) -> bool {
    latest_index(s, key) >= 0 && !s[latest_index(s, key)].tombstone
}

pub proof fn lemma_latest_index_in_range(s: Seq<Entry>, key: Seq<u8>)
    ensures
        -1 <= latest_index(s, key) < s.len(),
        latest_index(s, key) >= 0 ==> s[latest_index(s, key)].key_name@ == key,
    decreases s.len(),
{
    if s.len() > 0 && s.last().key_name@ != key {
        lemma_latest_index_in_range(s.drop_last(), key);
    }
}

pub proof fn lemma_version_index_in_range(s: Seq<Entry>, v: u64)
    ensures
        -1 <= version_index(s, v) < s.len(),
        version_index(s, v) >= 0 ==> s[version_index(s, v)].version == v,
    decreases s.len(),
{
    if s.len() > 0 && s.last().version != v {
        lemma_version_index_in_range(s.drop_last(), v);
    }
}

pub proof fn lemma_latest_index_at(s: Seq<Entry>, key: Seq<u8>, i: int)
    requires
        0 <= i < s.len(),
        s[i].key_name@ == key,
        forall|j: int| i < j < s.len() ==> (#[trigger] s[j]).key_name@ != key,
    ensures
        latest_index(s, key) == i,
    decreases s.len(),
{
    if i < s.len() - 1 {
        assert(s.drop_last()[i] == s[i]);
        lemma_latest_index_at(s.drop_last(), key, i);
    }
}

pub proof fn lemma_latest_index_none(s: Seq<Entry>, key: Seq<u8>)
    requires
        forall|j: int| 0 <= j < s.len() ==> (#[trigger] s[j]).key_name@ != key,
    ensures
        latest_index(s, key) == -1,
    decreases s.len(),
{
    if s.len() > 0 {
        lemma_latest_index_none(s.drop_last(), key);
    }
}

pub proof fn lemma_version_index_at(s: Seq<Entry>, v: u64, i: int)
    requires
        0 <= i < s.len(),
        s[i].version == v,
        forall|j: int| i < j < s.len() ==> (#[trigger] s[j]).version != v,
    ensures
        version_index(s, v) == i,
    decreases s.len(),
{
    if i < s.len() - 1 {
        assert(s.drop_last()[i] == s[i]);
        lemma_version_index_at(s.drop_last(), v, i);
    }
}

pub proof fn lemma_version_index_none(s: Seq<Entry>, v: u64)
    requires
        forall|j: int| 0 <= j < s.len() ==> (#[trigger] s[j]).version != v,
    ensures
        version_index(s, v) == -1,
    decreases s.len(),
{
    if s.len() > 0 {
        lemma_version_index_none(s.drop_last(), v);
    }
}

/// Versioned, path-addressed storage of one user: an append-only history plus
/// the monotonic counter that allocates versions.
pub struct UserStore {
    pub entries: Vec<Entry>,
    pub counter: u64,
}

impl UserStore {
    /// History holds strictly increasing versions, all allocated by the counter.
    pub open spec fn wf(self) -> bool {
        &&& forall|i: int, j: int|
            0 <= i < j < self.entries@.len() ==> (#[trigger] self.entries@[i]).version < (
            #[trigger] self.entries@[j]).version
        &&& forall|i: int|
            0 <= i < self.entries@.len() ==> 1 <= (#[trigger] self.entries@[i]).version
                <= self.counter
    }

    pub fn new() -> (r: Self)
        ensures
            r.wf(),
            r.entries@.len() == 0,
            r.counter == 0,
    {
        UserStore { entries: Vec::new(), counter: 0 }
    }

    /// How one successful mutation relates the store before to the store after:
    /// exactly one entry is appended, under the next version.
    pub open spec fn appended(pre: UserStore, post: UserStore, key: Seq<u8>, payload: Seq<u8>, tomb: bool) -> bool {
        &&& pre.counter < u64::MAX
        &&& post.counter == pre.counter + 1
        &&& post.entries@.len() == pre.entries@.len() + 1
        &&& post.entries@.subrange(0, pre.entries@.len() as int) == pre.entries@
        &&& entry_is(post.entries@.last(), key, (pre.counter + 1) as u64, payload, tomb)
    }

    /// Finds the index of the newest version of `key_name`, if any.
    fn find_latest(&self, key_name: &[u8]) -> (r: Option<usize>)
        ensures
            r matches Some(i) ==> latest_index(self.entries@, key_name@) == i && i
                < self.entries@.len(),
            r is None ==> latest_index(self.entries@, key_name@) == -1,
    {
        let n = self.entries.len();
        let mut i: usize = n;
        while i > 0
            invariant
                i <= n,
                n == self.entries@.len(),
                forall|j: int| i <= j < n ==> (#[trigger] self.entries@[j]).key_name@ != key_name@,
            decreases i,
        {
            i = i - 1;
            if bytes_eq(self.entries[i].key_name.as_slice(), key_name) {
                proof {
                    lemma_latest_index_at(self.entries@, key_name@, i as int);
                }
                return Some(i);
            }
        }
        proof {
            lemma_latest_index_none(self.entries@, key_name@);
        }
        None
    }

    /// Finds the index of the entry carrying version `v`, if any.
    fn find_version(&self, v: u64) -> (r: Option<usize>)
        ensures
            r matches Some(i) ==> version_index(self.entries@, v) == i && i < self.entries@.len(),
            r is None ==> version_index(self.entries@, v) == -1,
    {
        let n = self.entries.len();
        let mut i: usize = n;
        while i > 0
            invariant
                i <= n,
                n == self.entries@.len(),
                forall|j: int| i <= j < n ==> (#[trigger] self.entries@[j]).version != v,
            decreases i,
        {
            i = i - 1;
            if self.entries[i].version == v {
                proof {
                    lemma_version_index_at(self.entries@, v, i as int);
                }
                return Some(i);
            }
        }
        proof {
            lemma_version_index_none(self.entries@, v);
        }
        None
    }

    /// Read by `key_name`: the newest version, provided it is not a tombstone.
    pub fn read_name(&self, key_name: &[u8]) -> (r: Result<&Entry, CoreError>)
        ensures
            r matches Ok(e) ==> has_live_latest(self.entries@, key_name@) && *e
                == self.entries@[latest_index(self.entries@, key_name@)],
            r is Err ==> !has_live_latest(self.entries@, key_name@) && r == Err::<
                &Entry,
                CoreError,
            >(CoreError::NotFound),
    {
        match self.find_latest(key_name) {
            Some(i) => {
                let e = &self.entries[i];
                if e.tombstone {
                    Err(CoreError::NotFound)
                } else {
                    Ok(e)
                }
            },
            None => Err(CoreError::NotFound),
        }
    }

    /// Read by explicit version: any historical version is observable,
    /// tombstones included, provided the named key wrote it.
    pub fn read_version(&self, key_name: &[u8], v: u64) -> (r: Result<&Entry, CoreError>)
        ensures
            r matches Ok(e) ==> version_index(self.entries@, v) >= 0 && *e == self.entries@[
                version_index(self.entries@, v)
            ] && e.key_name@ == key_name@,
            r is Err ==> r == Err::<&Entry, CoreError>(CoreError::NotFound) && (version_index(
                self.entries@,
                v,
            ) == -1 || self.entries@[version_index(self.entries@, v)].key_name@ != key_name@),
    {
        match self.find_version(v) {
            Some(i) => {
                let e = &self.entries[i];
                if bytes_eq(e.key_name.as_slice(), key_name) {
                    Ok(e)
                } else {
                    Err(CoreError::NotFound)
                }
            },
            None => Err(CoreError::NotFound),
        }
    }

    /// Appends a new version of `key_name` under the next counter value.
    fn append(&mut self, key_name: &[u8], payload: &[u8], tomb: bool) -> (r: Result<
        Entry,
        CoreError,
    >)
        requires
            old(self).wf(),
        ensures
            final(self).wf(),
            r matches Ok(e) ==> Self::appended(*old(self), *final(self), key_name@, payload@, tomb)
                && entry_is(e, key_name@, (old(self).counter + 1) as u64, payload@, tomb),
            r is Err ==> *final(self) == *old(self) && old(self).counter == u64::MAX && r == Err::<
                Entry,
                CoreError,
            >(CoreError::Internal),
    {
        if self.counter == u64::MAX {
            return Err(CoreError::Internal);
        }
        let v = self.counter + 1;
        let ghost pre = self.entries@;
        let e = Entry {
            key_name: slice_to_vec(key_name),
            version: v,
            payload: slice_to_vec(payload),
            tombstone: tomb,
        };
        let r = e.duplicate();
        self.entries.push(e);
        self.counter = v;
        proof {
            assert(self.entries@.subrange(0, pre.len() as int) =~= pre);
            assert(forall|i: int|
                0 <= i < pre.len() ==> (#[trigger] self.entries@[i]).version == pre[i].version);
        }
        Ok(r)
    }

    /// `create` fails with `AlreadyExists` while a live latest version exists;
    /// a tombstoned or never-written name is created anew.
    pub fn create(&mut self, key_name: &[u8], payload: &[u8]) -> (r: Result<Entry, CoreError>)
        requires
            old(self).wf(),
        ensures
            final(self).wf(),
            r matches Ok(e) ==> !has_live_latest(old(self).entries@, key_name@) && Self::appended(
                *old(self),
                *final(self),
                key_name@,
                payload@,
                false,
            ) && entry_is(e, key_name@, (old(self).counter + 1) as u64, payload@, false),
            r matches Err(err) ==> *final(self) == *old(self) && ((err == CoreError::AlreadyExists
                && has_live_latest(old(self).entries@, key_name@)) || (err == CoreError::Internal
                && !has_live_latest(old(self).entries@, key_name@) && old(self).counter
                == u64::MAX)),
    {
        match self.find_latest(key_name) {
            Some(i) => {
                if !self.entries[i].tombstone {
                    return Err(CoreError::AlreadyExists);
                }
            },
            None => {},
        }
        self.append(key_name, payload, false)
    }

    /// `update` is an unconditional new-version write.
    pub fn update(&mut self, key_name: &[u8], payload: &[u8]) -> (r: Result<Entry, CoreError>)
        requires
            old(self).wf(),
        ensures
            final(self).wf(),
            r matches Ok(e) ==> Self::appended(*old(self), *final(self), key_name@, payload@, false)
                && entry_is(e, key_name@, (old(self).counter + 1) as u64, payload@, false),
            r is Err ==> *final(self) == *old(self) && old(self).counter == u64::MAX && r == Err::<
                Entry,
                CoreError,
            >(CoreError::Internal),
    {
        self.append(key_name, payload, false)
    }

    /// `delete` writes a tombstone over a live latest version.
    pub fn delete(&mut self, key_name: &[u8]) -> (r: Result<Entry, CoreError>)
        requires
            old(self).wf(),
        ensures
            final(self).wf(),
            r matches Ok(e) ==> has_live_latest(old(self).entries@, key_name@) && Self::appended(
                *old(self),
                *final(self),
                key_name@,
                Seq::<u8>::empty(),
                true,
            ) && entry_is(e, key_name@, (old(self).counter + 1) as u64, Seq::<u8>::empty(), true),
            r matches Err(err) ==> *final(self) == *old(self) && ((err == CoreError::NotFound
                && !has_live_latest(old(self).entries@, key_name@)) || (err == CoreError::Internal
                && has_live_latest(old(self).entries@, key_name@) && old(self).counter
                == u64::MAX)),
    {
        match self.find_latest(key_name) {
            Some(i) => {
                if self.entries[i].tombstone {
                    return Err(CoreError::NotFound);
                }
            },
            None => {
                return Err(CoreError::NotFound);
            },
        }
        let empty: [u8; 0] = [];
        let r = self.append(key_name, &empty, true);
        proof {
            assert(empty@ =~= Seq::<u8>::empty());
        }
        r
    }
}

// ---------------------------------------------------------------------------
// History laws
// ---------------------------------------------------------------------------

/// After one more version is appended, every version already written still
/// resolves to the very entry it resolved to before: history is never
/// rewritten, and any prior `key_path` read returns exactly what was written.
pub proof fn lemma_history_reads_stable(s1: Seq<Entry>, s2: Seq<Entry>, v: u64)
    requires
        s2.len() == s1.len() + 1,
        s2.subrange(0, s1.len() as int) == s1,
        forall|i: int| 0 <= i < s1.len() ==> (#[trigger] s1[i]).version < s2.last().version,
        version_index(s1, v) >= 0,
    ensures
        version_index(s2, v) == version_index(s1, v),
        s2[version_index(s2, v)] == s1[version_index(s1, v)],
{
    lemma_version_index_in_range(s1, v);
    let i = version_index(s1, v);
    assert(s1[i].version == v);
    assert(s2.drop_last() =~= s1);
    assert(s2.last().version != v);
    assert(s2[i] == s1[i]);
}

/// Two consecutive unconditional updates allocate strictly distinct versions,
/// and both payloads stay recoverable by their paths afterwards.
pub proof fn lemma_two_updates_recoverable(
    s0: UserStore,
    s1: UserStore,
    s2: UserStore,
    k1: Seq<u8>,
    p1: Seq<u8>,
    k2: Seq<u8>,
    p2: Seq<u8>,
    e1: Entry,
    e2: Entry,
)
    requires
        s0.wf(),
        UserStore::appended(s0, s1, k1, p1, false),
        UserStore::appended(s1, s2, k2, p2, false),
        entry_is(e1, k1, (s0.counter + 1) as u64, p1, false),
        entry_is(e2, k2, (s1.counter + 1) as u64, p2, false),
    ensures
        e1.version < e2.version,
        read_version_is(s2.entries@, k1, e1.version, p1),
        read_version_is(s2.entries@, k2, e2.version, p2),
{
    let n0 = s0.entries@.len() as int;
    let n1 = s1.entries@.len() as int;
    assert(s1.entries@[n0] == s1.entries@.last());
    assert(s2.entries@[n1] == s2.entries@.last());
    assert(s2.entries@[n0] == s2.entries@.subrange(0, n1)[n0]);
    assert(s2.entries@[n0] == s1.entries@[n0]);
    assert(forall|j: int|
        n0 < j < s2.entries@.len() ==> (#[trigger] s2.entries@[j]).version != e1.version);
    lemma_version_index_at(s2.entries@, e1.version, n0);
    assert(forall|j: int|
        n1 < j < s2.entries@.len() ==> (#[trigger] s2.entries@[j]).version != e2.version);
    lemma_version_index_at(s2.entries@, e2.version, n1);
}

/// What it means for a path read of `(key, v)` against history `s` to return
/// payload `p`.
pub open spec fn read_version_is(s: Seq<Entry>, key: Seq<u8>, v: u64, p: Seq<u8>) -> bool {
    &&& version_index(s, v) >= 0
    &&& s[version_index(s, v)].key_name@ == key
    &&& s[version_index(s, v)].payload@ == p
}

/// Reading by name sees exactly the newest non-tombstone payload: the content
/// of a `read_name` after any mutation sequence, stated over the history.
pub open spec fn read_name_is(s: Seq<Entry>, key: Seq<u8>, p: Seq<u8>) -> bool {
    &&& has_live_latest(s, key)
    &&& s[latest_index(s, key)].payload@ == p
}

/// After an appended version of `key`, a read by name returns the new payload
/// if it is live, and `NotFound` if it was a tombstone; other keys' latest
/// versions are untouched.
pub proof fn lemma_read_name_after_append(
    pre: UserStore,
    post: UserStore,
    key: Seq<u8>,
    payload: Seq<u8>,
    tomb: bool,
    other: Seq<u8>,
)
    requires
        pre.wf(),
        UserStore::appended(pre, post, key, payload, tomb),
    ensures
        !tomb ==> read_name_is(post.entries@, key, payload),
        tomb ==> !has_live_latest(post.entries@, key),
        other != key ==> latest_index(post.entries@, other) == latest_index(pre.entries@, other)
            && (latest_index(pre.entries@, other) >= 0 ==> post.entries@[latest_index(
            post.entries@,
            other,
        )] == pre.entries@[latest_index(pre.entries@, other)]),
{
    let n0 = pre.entries@.len() as int;
    let s2 = post.entries@;
    assert(s2[n0] == s2.last());
    lemma_latest_index_at(s2, key, n0);
    if other != key {
        assert(s2.drop_last() =~= pre.entries@);
        lemma_latest_index_in_range(pre.entries@, other);
        if latest_index(pre.entries@, other) >= 0 {
            assert(s2[latest_index(pre.entries@, other)] == pre.entries@[latest_index(
                pre.entries@,
                other,
            )]);
        }
    }
}

} // verus!
