use crate::codec::bytes_eq;
use vstd::prelude::*;
use vstd::slice::slice_to_vec;

verus! {

/// One registered reverse connection: tasks addressed to `user_id` behind the
/// peer `peer_host_id` are pushed into the stream handle instead of dialled.
pub struct ReverseEntry {
    pub peer_host_id: Vec<u8>,
    pub user_id: Vec<u8>,
    pub stream: u64,
}

pub open spec fn reverse_index(s: Seq<ReverseEntry>, host: Seq<u8>, user: Seq<u8>) -> int
    decreases s.len(),
{
    if s.len() == 0 {
        -1
    } else if s.last().peer_host_id@ == host && s.last().user_id@ == user {
        s.len() - 1
    } else {
        reverse_index(s.drop_last(), host, user)
    }
}

pub proof fn lemma_reverse_index_props(s: Seq<ReverseEntry>, host: Seq<u8>, user: Seq<u8>)
    ensures
        -1 <= reverse_index(s, host, user) < s.len(),
        reverse_index(s, host, user) >= 0 ==> (#[trigger] s[reverse_index(
            s,
            host,
            user,
        )]).peer_host_id@ == host && s[reverse_index(s, host, user)].user_id@ == user,
        reverse_index(s, host, user) == -1 ==> forall|i: int|
            0 <= i < s.len() ==> !((#[trigger] s[i]).peer_host_id@ == host && s[i].user_id@
                == user),
    decreases s.len(),
{
    if s.len() > 0 && !(s.last().peer_host_id@ == host && s.last().user_id@ == user) {
        lemma_reverse_index_props(s.drop_last(), host, user);
        assert(forall|i: int| 0 <= i < s.len() - 1 ==> s.drop_last()[i] == #[trigger] s[i]);
    }
}

/// The registry of reverse connections, keyed by `(peer_host_id, user_id)`.
pub struct ReverseStreams {
    pub entries: Vec<ReverseEntry>,
}

/// Where an outbound task sync goes: into a registered reverse stream, over a
/// direct dial, or onto the retry queue when the peer is unreachable.
#[derive(Clone, Copy, Debug, PartialEq, Eq, Structural)]
pub enum SyncRoute {
    Reverse(u64),
    Dial,
    Queued,
}

impl ReverseStreams {
    /// At most one stream per key.
    pub open spec fn wf(self) -> bool {
        forall|i: int, j: int|
            0 <= i < j < self.entries@.len() ==> !((#[trigger] self.entries@[i]).peer_host_id@ == (
            #[trigger] self.entries@[j]).peer_host_id@ && self.entries@[i].user_id@
                == self.entries@[j].user_id@)
    }

    pub fn new() -> (r: Self)
        ensures
            r.wf(),
            r.entries@.len() == 0,
    {
        ReverseStreams { entries: Vec::new() }
    }

    fn find(&self, host: &[u8], user: &[u8]) -> (r: Option<usize>)
        ensures
            r matches Some(i) ==> reverse_index(self.entries@, host@, user@) == i && i
                < self.entries@.len(),
            r is None ==> reverse_index(self.entries@, host@, user@) == -1,
    {
        let n = self.entries.len();
        let mut i: usize = n;
        while i > 0
            invariant
                i <= n,
                n == self.entries@.len(),
                forall|j: int|
                    i <= j < n ==> !((#[trigger] self.entries@[j]).peer_host_id@ == host@
                        && self.entries@[j].user_id@ == user@),
            decreases i,
        {
            i = i - 1;
            if bytes_eq(self.entries[i].peer_host_id.as_slice(), host) && bytes_eq(
                self.entries[i].user_id.as_slice(),
                user,
            ) {
                proof {
                    lemma_reverse_index_at(self.entries@, host@, user@, i as int);
                }
                return Some(i);
            }
        }
        proof {
            lemma_reverse_index_props(self.entries@, host@, user@);
        }
        None
    }

    /// Registers a stream under its key. Re-registration supersedes: the
    /// prior handle is handed back so its stream can be closed, never leaked.
    pub fn register(&mut self, host: &[u8], user: &[u8], stream: u64) -> (r: Option<u64>)
        requires
            old(self).wf(),
        ensures
            final(self).wf(),
            reverse_index(final(self).entries@, host@, user@) >= 0,
            final(self).entries@[reverse_index(final(self).entries@, host@, user@)].stream
                == stream,
            ({
                let idx = reverse_index(old(self).entries@, host@, user@);
                match r {
                    Some(prior) => idx >= 0 && prior == old(self).entries@[idx].stream && final(self).entries@ == old(self).entries@.update(
                        idx,
                        final(self).entries@[idx],
                    ) && reverse_index(final(self).entries@, host@, user@) == idx,
                    None => idx == -1 && final(self).entries@.len() == old(self).entries@.len() + 1
                        && final(self).entries@.subrange(0, old(self).entries@.len() as int) == old(self).entries@,
                }
            }),
    {
        let entry = ReverseEntry { peer_host_id: slice_to_vec(host), user_id: slice_to_vec(user), stream };
        let ghost pre = self.entries@;
        match self.find(host, user) {
            Some(i) => {
                proof {
                    lemma_reverse_index_props(pre, host@, user@);
                    assert forall|j: int| 0 <= j < pre.len() && j != i implies !((
                    #[trigger] pre[j]).peer_host_id@ == host@ && pre[j].user_id@ == user@) by {
                        if j < i {
                            assert(!(pre[j].peer_host_id@ == pre[i as int].peer_host_id@ && pre[j].user_id@
                                == pre[i as int].user_id@));
                        } else {
                            assert(!(pre[i as int].peer_host_id@ == pre[j].peer_host_id@
                                && pre[i as int].user_id@ == pre[j].user_id@));
                        }
                    }
                }
                let prior = self.entries.remove(i);
                self.entries.insert(i, entry);
                proof {
                    assert(self.entries@ =~= pre.update(i as int, self.entries@[i as int]));
                    assert(forall|k: int|
                        0 <= k < pre.len() && k != i ==> #[trigger] self.entries@[k] == pre[k]);
                    lemma_reverse_index_at(self.entries@, host@, user@, i as int);
                }
                Some(prior.stream)
            },
            None => {
                proof {
                    lemma_reverse_index_props(pre, host@, user@);
                }
                self.entries.push(entry);
                proof {
                    assert(self.entries@.subrange(0, pre.len() as int) =~= pre);
                    assert(forall|k: int| 0 <= k < pre.len() ==> #[trigger] self.entries@[k] == pre[k]);
                    lemma_reverse_index_at(
                        self.entries@,
                        host@,
                        user@,
                        pre.len() as int,
                    );
                }
                None
            },
        }
    }

    /// Routes one outbound sync: a registered reverse stream wins over a
    /// dial; without either, the message waits on the retry queue.
    pub fn route_sync(&self, host: &[u8], user: &[u8], peer_uri_known: bool) -> (r: SyncRoute)
        ensures
            ({
                let idx = reverse_index(self.entries@, host@, user@);
                r == if idx >= 0 {
                    SyncRoute::Reverse(self.entries@[idx].stream)
                } else if peer_uri_known {
                    SyncRoute::Dial
                } else {
                    SyncRoute::Queued
                }
            }),
    {
        match self.find(host, user) {
            Some(i) => SyncRoute::Reverse(self.entries[i].stream),
            None => {
                if peer_uri_known {
                    SyncRoute::Dial
                } else {
                    SyncRoute::Queued
                }
            },
        }
    }
}

pub proof fn lemma_reverse_index_at(s: Seq<ReverseEntry>, host: Seq<u8>, user: Seq<u8>, i: int)
    requires
        0 <= i < s.len(),
        s[i].peer_host_id@ == host,
        s[i].user_id@ == user,
        forall|j: int|
            i < j < s.len() ==> !((#[trigger] s[j]).peer_host_id@ == host && s[j].user_id@
                == user),
    ensures
        reverse_index(s, host, user) == i,
    decreases s.len(),
{
    if i < s.len() - 1 {
        assert(s.drop_last()[i] == s[i]);
        lemma_reverse_index_at(s.drop_last(), host, user, i);
    }
}

/// The retry backoff of the inter-core dialler: doubling from half a second
/// to a thirty-second cap.
pub open spec fn backoff_spec(attempt: nat) -> u64 {
    if attempt == 0 {
        500
    } else if attempt == 1 {
        1000
    } else if attempt == 2 {
        2000
    } else if attempt == 3 {
        4000
    } else if attempt == 4 {
        8000
    } else if attempt == 5 {
        16000
    } else {
        30000
    }
}

/// The delay in milliseconds before retry number `attempt`.
pub fn backoff_ms(attempt: u32) -> (r: u64)
    ensures
        r == backoff_spec(attempt as nat),
{
    if attempt == 0 {
        500
    } else if attempt == 1 {
        1000
    } else if attempt == 2 {
        2000
    } else if attempt == 3 {
        4000
    } else if attempt == 4 {
        8000
    } else if attempt == 5 {
        16000
    } else {
        30000
    }
}

} // verus!
