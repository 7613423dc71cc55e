use crate::codec::{bytes_eq, dec_of, is_prefix_of, starts_with, u64_to_dec, COLON};
use crate::errors::CoreError;
use crate::kv::{Entry, UserStore};
use vstd::prelude::*;
use vstd::slice::slice_to_vec;

verus! {

pub open spec fn entry_matches(a: Entry, b: Entry) -> bool {
    &&& a.key_name@ == b.key_name@
    &&& a.version == b.version
    &&& a.payload@ == b.payload@
    &&& a.tombstone == b.tombstone
}

/// The catch-up a subscription at watermark `t` under `prefix` owes: every
/// version at or past `t` whose key carries the prefix, in history order.
pub open spec fn catch_up_spec(s: Seq<Entry>, prefix: Seq<u8>, t: u64) -> Seq<Entry>
    decreases s.len(),
{
    if s.len() == 0 {
        Seq::empty()
    } else {
        let rest = catch_up_spec(s.drop_last(), prefix, t);
        if is_prefix_of(prefix, s.last().key_name@) && s.last().version >= t {
            rest.push(s.last())
        } else {
            rest
        }
    }
}

/// The catch-up is sound, complete and ordered: it holds only matching
/// versions at or past the watermark — none below it —, holds every one of
/// them, and delivers them in strictly increasing version order.
pub proof fn lemma_catch_up_exact(s: Seq<Entry>, prefix: Seq<u8>, t: u64)
    requires
        forall|i: int, j: int|
            0 <= i < j < s.len() ==> (#[trigger] s[i]).version < (#[trigger] s[j]).version,
    ensures
        forall|i: int|
            0 <= i < catch_up_spec(s, prefix, t).len() ==> is_prefix_of(
                prefix,
                (#[trigger] catch_up_spec(s, prefix, t)[i]).key_name@,
            ) && catch_up_spec(s, prefix, t)[i].version >= t,
        forall|i: int|
            0 <= i < catch_up_spec(s, prefix, t).len() ==> exists|k: int|
                0 <= k < s.len() && #[trigger] catch_up_spec(s, prefix, t)[i] == s[k],
        forall|k: int|
            0 <= k < s.len() && is_prefix_of(prefix, (#[trigger] s[k]).key_name@) && s[k].version
                >= t ==> catch_up_spec(s, prefix, t).contains(s[k]),
        forall|i: int, j: int|
            0 <= i < j < catch_up_spec(s, prefix, t).len() ==> (#[trigger] catch_up_spec(
                s,
                prefix,
                t,
            )[i]).version < (#[trigger] catch_up_spec(s, prefix, t)[j]).version,
    decreases s.len(),
{
    if s.len() > 0 {
        let p = s.drop_last();
        lemma_catch_up_exact(p, prefix, t);
        let c = catch_up_spec(s, prefix, t);
        let cp = catch_up_spec(p, prefix, t);
        assert(forall|i: int|
            0 <= i < cp.len() ==> exists|k: int| 0 <= k < p.len() && #[trigger] cp[i] == p[k]);
        assert forall|i: int| 0 <= i < c.len() implies exists|k: int|
            0 <= k < s.len() && #[trigger] c[i] == s[k] by {
            if i < cp.len() {
                let k = choose|k: int| 0 <= k < p.len() && cp[i] == p[k];
                assert(p[k] == s[k]);
                assert(c[i] == s[k]);
            } else {
                assert(c[i] == s[s.len() - 1]);
            }
        }
        assert forall|k: int|
            0 <= k < s.len() && is_prefix_of(prefix, (#[trigger] s[k]).key_name@) && s[k].version
                >= t implies c.contains(s[k]) by {
            if k < s.len() - 1 {
                assert(p[k] == s[k]);
                assert(cp.contains(p[k]));
                let i = choose|i: int| 0 <= i < cp.len() && cp[i] == p[k];
                assert(c[i] == s[k]);
            } else {
                assert(c[c.len() - 1] == s[k]);
            }
        }
        assert forall|i: int, j: int| 0 <= i < j < c.len() implies (#[trigger] c[i]).version < (
        #[trigger] c[j]).version by {
            if j < cp.len() {
                assert(cp[i] == c[i] && cp[j] == c[j]);
            } else {
                assert(c[j] == s[s.len() - 1]);
                assert(cp[i] == c[i]);
                let k = choose|k: int| 0 <= k < p.len() && cp[i] == p[k];
                assert(s[k].version < s[s.len() - 1].version);
            }
        }
    }
}

/// Computes the catch-up list against a user's history.
pub fn catch_up(store: &UserStore, prefix: &[u8], t: u64) -> (r: Vec<Entry>)
    ensures
        r@.len() == catch_up_spec(store.entries@, prefix@, t).len(),
        forall|i: int|
            0 <= i < r@.len() ==> entry_matches(
                #[trigger] r@[i],
                catch_up_spec(store.entries@, prefix@, t)[i],
            ),
{
    let mut r: Vec<Entry> = Vec::new();
    let mut i: usize = 0;
    let n = store.entries.len();
    while i < n
        invariant
            i <= n,
            n == store.entries@.len(),
            r@.len() == catch_up_spec(store.entries@.subrange(0, i as int), prefix@, t).len(),
            forall|j: int|
                0 <= j < r@.len() ==> entry_matches(
                    #[trigger] r@[j],
                    catch_up_spec(store.entries@.subrange(0, i as int), prefix@, t)[j],
                ),
        decreases n - i,
    {
        let ghost pre = store.entries@.subrange(0, i as int);
        let ghost cur = store.entries@.subrange(0, i as int + 1);
        proof {
            assert(cur.drop_last() =~= pre);
            assert(cur.last() == store.entries@[i as int]);
        }
        let e = &store.entries[i];
        if starts_with(e.key_name.as_slice(), prefix) && e.version >= t {
            r.push(e.duplicate());
        }
        i = i + 1;
    }
    proof {
        assert(store.entries@.subrange(0, n as int) =~= store.entries@);
    }
    r
}

// ---------------------------------------------------------------------------
// The subscription registry
// ---------------------------------------------------------------------------

/// One binding: mutations of the user's keys under the prefix flow into the
/// named broker queue, from the watermark on. The suffix is the counter value
/// the queue name was minted from.
pub struct Subscription {
    pub user_id: Vec<u8>,
    pub key_prefix: Vec<u8>,
    pub queue_name: Vec<u8>,
    pub suffix: u64,
    pub start_version: u64,
}

/// Queue names are namespaced by the subscriber and a monotonic suffix.
pub open spec fn queue_name_of(user_id: Seq<u8>, n: u64) -> Seq<u8> {
    user_id + seq![COLON] + dec_of(n as nat)
}

/// The subscription registry of one core. The watermark strategy: a queue's
/// catch-up covers versions at or past `start_version`, and a live event is
/// delivered to it exactly when its version is also at or past that mark, so
/// nothing below the watermark ever reaches the queue.
pub struct Bus {
    pub subscriptions: Vec<Subscription>,
    pub queue_counter: u64,
}

impl Bus {
    /// Every binding's name was minted from its own suffix, suffixes are
    /// allocated by the counter, and no two bindings share one — so no two
    /// bindings share a queue name either.
    pub open spec fn wf(self) -> bool {
        &&& forall|i: int|
            0 <= i < self.subscriptions@.len() ==> (#[trigger] self.subscriptions@[i]).queue_name@
                == queue_name_of(
                self.subscriptions@[i].user_id@,
                self.subscriptions@[i].suffix,
            )
        &&& forall|i: int|
            0 <= i < self.subscriptions@.len() ==> 1 <= (#[trigger] self.subscriptions@[i]).suffix
                <= self.queue_counter
        &&& forall|i: int, j: int|
            0 <= i < j < self.subscriptions@.len() ==> (#[trigger] self.subscriptions@[i]).suffix
                != (#[trigger] self.subscriptions@[j]).suffix
    }
}

/// Two equal queue names were minted from the same suffix: the suffix is the
/// digit string after the name's last separator, and digits render uniquely.
pub proof fn lemma_queue_name_injective(u1: Seq<u8>, n1: u64, u2: Seq<u8>, n2: u64)
    requires
        queue_name_of(u1, n1) == queue_name_of(u2, n2),
    ensures
        n1 == n2,
{
    let s = queue_name_of(u1, n1);
    crate::codec::lemma_dec_of_digits(n1 as nat);
    crate::codec::lemma_dec_of_digits(n2 as nat);
    assert(s[u1.len() as int] == COLON);
    assert forall|j: int| u1.len() < j < s.len() implies s[j] != COLON by {
        assert(s[j] == dec_of(n1 as nat)[j - (u1.len() as int + 1)]);
        assert(crate::codec::is_dec_digit(s[j]));
    }
    crate::codec::lemma_rfind_at(s, COLON, u1.len() as int);
    let t = queue_name_of(u2, n2);
    assert(t[u2.len() as int] == COLON);
    assert forall|j: int| u2.len() < j < t.len() implies t[j] != COLON by {
        assert(t[j] == dec_of(n2 as nat)[j - (u2.len() as int + 1)]);
        assert(crate::codec::is_dec_digit(t[j]));
    }
    crate::codec::lemma_rfind_at(t, COLON, u2.len() as int);
    assert(u1.len() == u2.len());
    assert(s.subrange(u1.len() as int + 1, s.len() as int) =~= dec_of(n1 as nat));
    assert(t.subrange(u2.len() as int + 1, t.len() as int) =~= dec_of(n2 as nat));
    assert(dec_of(n1 as nat) == dec_of(n2 as nat));
    crate::codec::lemma_dec_roundtrip(n1 as nat);
    crate::codec::lemma_dec_roundtrip(n2 as nat);
}

/// In a well-formed registry, a queue name picks out one binding.
pub proof fn lemma_bus_queue_names_unique(bus: Bus, i: int, j: int)
    requires
        bus.wf(),
        0 <= i < bus.subscriptions@.len(),
        0 <= j < bus.subscriptions@.len(),
        bus.subscriptions@[i].queue_name@ == bus.subscriptions@[j].queue_name@,
    ensures
        i == j,
{
    if i != j {
        lemma_queue_name_injective(
            bus.subscriptions@[i].user_id@,
            bus.subscriptions@[i].suffix,
            bus.subscriptions@[j].user_id@,
            bus.subscriptions@[j].suffix,
        );
    }
}

/// The watermark law at the delivery gate: in a well-formed registry, any
/// event the bus routes to a binding's queue name carries a version at or
/// past that binding's watermark — nothing below it ever reaches the queue.
pub proof fn lemma_no_event_below_watermark(
    bus: Bus,
    r: Seq<Vec<u8>>,
    qi: int,
    user_id: Seq<u8>,
    key_name: Seq<u8>,
    version: u64,
    x: int,
)
    requires
        bus.wf(),
        queues_sound(r, bus.subscriptions@, user_id, key_name, version),
        0 <= qi < bus.subscriptions@.len(),
        0 <= x < r.len(),
        (r[x])@ == bus.subscriptions@[qi].queue_name@,
    ensures
        version >= bus.subscriptions@[qi].start_version,
{
    let jj = choose|jj: int|
        0 <= jj < bus.subscriptions@.len() && (#[trigger] r[x])@ == (
        #[trigger] bus.subscriptions@[jj]).queue_name@ && delivers(
            bus.subscriptions@[jj],
            user_id,
            key_name,
            version,
        );
    lemma_bus_queue_names_unique(bus, jj, qi);
}

pub open spec fn queue_index(s: Seq<Subscription>, name: Seq<u8>) -> int
    decreases s.len(),
{
    if s.len() == 0 {
        -1
    } else if s.last().queue_name@ == name {
        s.len() - 1
    } else {
        queue_index(s.drop_last(), name)
    }
}

impl Bus {
    pub fn new() -> (r: Self)
        ensures
            r.wf(),
            r.subscriptions@.len() == 0,
            r.queue_counter == 0,
    {
        Bus { subscriptions: Vec::new(), queue_counter: 0 }
    }

    /// Registers a subscription under a fresh namespaced queue name.
    pub fn subscribe(&mut self, user_id: &[u8], key_prefix: &[u8], start_version: u64) -> (r:
        Result<Vec<u8>, CoreError>)
        requires
            old(self).wf(),
        ensures
            final(self).wf(),
            r matches Ok(q) ==> old(self).queue_counter < u64::MAX && q@ == queue_name_of(
                user_id@,
                (old(self).queue_counter + 1) as u64,
            ) && final(self).queue_counter == old(self).queue_counter + 1 && final(self).subscriptions@.len() == old(self).subscriptions@.len() + 1 && final(self).subscriptions@.subrange(0, old(self).subscriptions@.len() as int) == old(self).subscriptions@ && ({
                let s = final(self).subscriptions@.last();
                s.user_id@ == user_id@ && s.key_prefix@ == key_prefix@ && s.queue_name@ == q@
                    && s.suffix == old(self).queue_counter + 1 && s.start_version == start_version
            }),
            r is Err ==> *final(self) == *old(self) && r == Err::<Vec<u8>, CoreError>(
                CoreError::Internal,
            ) && old(self).queue_counter == u64::MAX,
    {
        if self.queue_counter == u64::MAX {
            return Err(CoreError::Internal);
        }
        let ghost pre = self.subscriptions@;
        self.queue_counter = self.queue_counter + 1;
        let mut q: Vec<u8> = slice_to_vec(user_id);
        q.push(COLON);
        let dec = u64_to_dec(self.queue_counter);
        q.extend_from_slice(dec.as_slice());
        proof {
            assert(q@ =~= queue_name_of(user_id@, self.queue_counter));
        }
        let name_copy = slice_to_vec(q.as_slice());
        self.subscriptions.push(
            Subscription {
                user_id: slice_to_vec(user_id),
                key_prefix: slice_to_vec(key_prefix),
                queue_name: name_copy,
                suffix: self.queue_counter,
                start_version,
            },
        );
        proof {
            assert(self.subscriptions@.subrange(0, pre.len() as int) =~= pre);
            assert(forall|k: int| 0 <= k < pre.len() ==> #[trigger] self.subscriptions@[k] == pre[k]);
        }
        Ok(q)
    }

    /// The queues a live mutation event must be pushed into: exactly the
    /// subscriber's bindings whose prefix covers the key and whose watermark
    /// the version has reached.
    pub fn matching_queues(&self, user_id: &[u8], key_name: &[u8], version: u64) -> (r: Vec<
        Vec<u8>,
    >)
        ensures
            queues_sound(r@, self.subscriptions@, user_id@, key_name@, version),
            queues_complete(
                r@,
                self.subscriptions@,
                self.subscriptions@.len() as int,
                user_id@,
                key_name@,
                version,
            ),
    {
        let mut r: Vec<Vec<u8>> = Vec::new();
        let mut j: usize = 0;
        let n = self.subscriptions.len();
        while j < n
            invariant
                j <= n,
                n == self.subscriptions@.len(),
                queues_sound(r@, self.subscriptions@, user_id@, key_name@, version),
                queues_complete(r@, self.subscriptions@, j as int, user_id@, key_name@, version),
            decreases n - j,
        {
            let ghost rpre = r@;
            let s = &self.subscriptions[j];
            let matched = bytes_eq(s.user_id.as_slice(), user_id) && starts_with(
                key_name,
                s.key_prefix.as_slice(),
            ) && version >= s.start_version;
            if matched {
                let name = slice_to_vec(s.queue_name.as_slice());
                r.push(name);
            }
            proof {
                let subs = self.subscriptions@;
                assert(matched == delivers(subs[j as int], user_id@, key_name@, version));
                assert(queues_sound(rpre, subs, user_id@, key_name@, version));
                assert forall|q: int| 0 <= q < r@.len() implies exists|jj: int|
                    0 <= jj < subs.len() && (#[trigger] r@[q])@ == (
                    #[trigger] subs[jj]).queue_name@ && delivers(
                        subs[jj],
                        user_id@,
                        key_name@,
                        version,
                    ) by {
                    if q < rpre.len() {
                        assert(r@[q] == rpre[q]);
                        let jj = choose|jj: int|
                            0 <= jj < subs.len() && (#[trigger] rpre[q])@ == (
                            #[trigger] subs[jj]).queue_name@ && delivers(
                                subs[jj],
                                user_id@,
                                key_name@,
                                version,
                            );
                        assert(0 <= jj < subs.len() && (r@[q])@ == subs[jj].queue_name@
                            && delivers(subs[jj], user_id@, key_name@, version));
                    } else {
                        assert(0 <= j < subs.len() && (r@[q])@ == subs[j as int].queue_name@
                            && delivers(subs[j as int], user_id@, key_name@, version));
                    }
                }
                assert(queues_sound(r@, subs, user_id@, key_name@, version));
                assert forall|jj: int|
                    0 <= jj < j + 1 && delivers(
                        #[trigger] subs[jj],
                        user_id@,
                        key_name@,
                        version,
                    ) implies exists|q: int|
                    0 <= q < r@.len() && (#[trigger] r@[q])@ == subs[jj].queue_name@ by {
                    if jj < j {
                        let q = choose|q: int|
                            0 <= q < rpre.len() && (#[trigger] rpre[q])@ == subs[jj].queue_name@;
                        assert(r@[q] == rpre[q]);
                        assert(0 <= q < r@.len() && (r@[q])@ == subs[jj].queue_name@);
                    } else {
                        assert(0 <= r@.len() - 1 < r@.len() && (r@[r@.len() - 1])@
                            == subs[jj].queue_name@);
                    }
                }
                assert(queues_complete(r@, subs, j as int + 1, user_id@, key_name@, version));
            }
            j = j + 1;
        }
        r
    }
}

/// Soundness of a delivery list: everything in it names a binding the event
/// belongs to.
pub open spec fn queues_sound(
    r: Seq<Vec<u8>>,
    subs: Seq<Subscription>,
    user_id: Seq<u8>,
    key_name: Seq<u8>,
    version: u64,
) -> bool {
    forall|q: int|
        0 <= q < r.len() ==> exists|jj: int|
            0 <= jj < subs.len() && (#[trigger] r[q])@ == (#[trigger] subs[jj]).queue_name@
                && delivers(subs[jj], user_id, key_name, version)
}

/// Completeness of a delivery list over the first `upto` bindings: every one
/// of them the event belongs to is named.
pub open spec fn queues_complete(
    r: Seq<Vec<u8>>,
    subs: Seq<Subscription>,
    upto: int,
    user_id: Seq<u8>,
    key_name: Seq<u8>,
    version: u64,
) -> bool {
    forall|jj: int|
        0 <= jj < upto && delivers(#[trigger] subs[jj], user_id, key_name, version)
            ==> exists|q: int| 0 <= q < r.len() && (#[trigger] r[q])@ == subs[jj].queue_name@
}

/// Whether a binding receives the event `(key_name, version)` of `user_id`.
pub open spec fn delivers(s: Subscription, user_id: Seq<u8>, key_name: Seq<u8>, version: u64) -> bool {
    &&& s.user_id@ == user_id
    &&& is_prefix_of(s.key_prefix@, key_name)
    &&& version >= s.start_version
}

pub proof fn lemma_queue_index_at(s: Seq<Subscription>, name: Seq<u8>, i: int)
    requires
        0 <= i < s.len(),
        s[i].queue_name@ == name,
        forall|j: int| i < j < s.len() ==> (#[trigger] s[j]).queue_name@ != name,
    ensures
        queue_index(s, name) == i,
    decreases s.len(),
{
    if i < s.len() - 1 {
        assert(s.drop_last()[i] == s[i]);
        lemma_queue_index_at(s.drop_last(), name, i);
    }
}

pub proof fn lemma_queue_index_none(s: Seq<Subscription>, name: Seq<u8>)
    requires
        forall|j: int| 0 <= j < s.len() ==> (#[trigger] s[j]).queue_name@ != name,
    ensures
        queue_index(s, name) == -1,
    decreases s.len(),
{
    if s.len() > 0 {
        lemma_queue_index_none(s.drop_last(), name);
    }
}

} // verus!
