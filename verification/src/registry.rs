//! The broker's shared state: the peer registry (which connections exist)
//! and the subscription table (which connections follow which topic path).
//!
//! The table is an association list from topic path to the ordered list of
//! subscribed connection identifiers. Duplicate entries are kept on purpose:
//! a connection that subscribes twice is delivered to twice.

use vstd::prelude::*;

verus! {

/// A connection identifier: a 128-bit value minted at accept time.
pub type ConnectionId = u128;

/// The registry of connected peers, as the set of their identifiers.
/// Resolving an identifier here decides whether a publish is fanned out
/// to that connection.
pub struct Shared {
    peers: Vec<ConnectionId>,
}

impl View for Shared {
    type V = Set<ConnectionId>;

    closed spec fn view(&self) -> Set<ConnectionId> {
        Set::new(|id: ConnectionId| self.peers@.contains(id))
    }
}

impl Shared {
    pub fn new() -> (s: Shared)
        ensures
            s@ == Set::<ConnectionId>::empty(),
    {
        let s = Shared { peers: Vec::new() };
        proof {
            assert(s@ =~= Set::<ConnectionId>::empty());
        }
        s
    }

    /// Registers a newly accepted connection.
    pub fn insert(&mut self, id: ConnectionId)
        ensures
            final(self)@ == old(self)@.insert(id),
    {
        self.peers.push(id);
        proof {
            assert forall|x: ConnectionId| self@.contains(x) implies old(self)@.insert(id).contains(
                x,
            ) by {
                let i = choose|i: int|
                    0 <= i < self.peers@.len() && self.peers@[i] == x;
                if i < self.peers@.len() - 1 {
                    assert(old(self).peers@[i] == x);
                }
            }
            assert forall|x: ConnectionId| old(self)@.insert(id).contains(x) implies self@.contains(
                x,
            ) by {
                if x == id {
                    assert(self.peers@[self.peers@.len() - 1] == id);
                } else {
                    let i = choose|i: int|
                        0 <= i < old(self).peers@.len() && old(self).peers@[i] == x;
                    assert(self.peers@[i] == x);
                }
            }
            assert(self@ =~= old(self)@.insert(id));
        }
    }

    /// Tells whether `id` is a registered peer.
    pub fn get_peer(&self, id: ConnectionId) -> (present: bool)
        ensures
            present == self@.contains(id),
    {
        let mut i: usize = 0;
        while i < self.peers.len()
            invariant
                0 <= i <= self.peers.len(),
                forall|j: int| 0 <= j < i ==> self.peers@[j] != id,
            decreases self.peers.len() - i,
        {
            if self.peers[i] == id {
                return true;
            }
            i += 1;
        }
        proof {
            if self@.contains(id) {
                let j = choose|j: int|
                    0 <= j < self.peers@.len() && self.peers@[j] == id;
                assert(self.peers@[j] != id);
            }
        }
        false
    }
}

impl Default for Shared {
    fn default() -> (s: Shared)
        ensures
            s@ == Set::<ConnectionId>::empty(),
    {
        Shared::new()
    }
}

/// One topic and the connections subscribed to it, in subscription order.
struct TopicEntry {
    path: String,
    subscribers: Vec<ConnectionId>,
}

/// The subscription table: topic path -> ordered list of connection
/// identifiers. A path that was never subscribed to maps to the empty list.
pub struct SubscriptionTable {
    entries: Vec<TopicEntry>,
}

/// The subscriber list of the first entry for `p`, or the empty sequence.
spec fn subs_in_seq(s: Seq<TopicEntry>, p: Seq<char>) -> Seq<ConnectionId>
    decreases s.len(),
{
    if s.len() == 0 {
        Seq::empty()
    } else if s[0].path@ == p {
        s[0].subscribers@
    } else {
        subs_in_seq(s.drop_first(), p)
    }
}

/// `subs` with every occurrence of `id` removed.
pub open spec fn without(subs: Seq<ConnectionId>, id: ConnectionId) -> Seq<ConnectionId> {
    subs.filter(|s: ConnectionId| s != id)
}

proof fn lemma_subs_skip(s: Seq<TopicEntry>, p: Seq<char>, i: int)
    requires
        0 <= i <= s.len(),
        forall|j: int| 0 <= j < i ==> s[j].path@ != p,
    ensures
        subs_in_seq(s, p) == subs_in_seq(s.skip(i), p),
    decreases i,
{
    if i > 0 {
        assert(s.drop_first() =~= s.skip(1));
        lemma_subs_skip(s.drop_first(), p, i - 1);
        assert(s.drop_first().skip(i - 1) =~= s.skip(i));
    } else {
        assert(s.skip(0) =~= s);
    }
}

proof fn lemma_subs_update(s: Seq<TopicEntry>, p: Seq<char>, i: int, e: TopicEntry, q: Seq<char>)
    requires
        0 <= i < s.len(),
        s[i].path@ == p,
        e.path@ == p,
        forall|j: int| 0 <= j < i ==> s[j].path@ != p,
    ensures
        subs_in_seq(s.update(i, e), q) == if q == p {
            e.subscribers@
        } else {
            subs_in_seq(s, q)
        },
    decreases i,
{
    let t = s.update(i, e);
    if i == 0 {
        if q != p {
            assert(t.drop_first() =~= s.drop_first());
        }
    } else {
        assert(t[0] == s[0]);
        if q == s[0].path@ {
        } else {
            assert(t.drop_first() =~= s.drop_first().update(i - 1, e));
            lemma_subs_update(s.drop_first(), p, i - 1, e, q);
        }
    }
}

proof fn lemma_subs_push(s: Seq<TopicEntry>, e: TopicEntry, q: Seq<char>)
    requires
        forall|j: int| 0 <= j < s.len() ==> s[j].path@ != e.path@,
    ensures
        subs_in_seq(s.push(e), q) == if q == e.path@ {
            e.subscribers@
        } else {
            subs_in_seq(s, q)
        },
    decreases s.len(),
{
    let t = s.push(e);
    if s.len() == 0 {
        assert(t[0] == e);
        assert(t.len() == 1);
        if q == e.path@ {
            assert(subs_in_seq(t, q) == e.subscribers@);
        } else {
            assert(t.drop_first() =~= Seq::<TopicEntry>::empty());
            assert(subs_in_seq(t, q) == subs_in_seq(t.drop_first(), q));
            assert(subs_in_seq(t.drop_first(), q) == Seq::<ConnectionId>::empty());
            assert(subs_in_seq(s, q) == Seq::<ConnectionId>::empty());
        }
    } else {
        assert(t[0] == s[0]);
        if q == s[0].path@ {
            assert(subs_in_seq(t, q) == s[0].subscribers@);
            assert(subs_in_seq(s, q) == s[0].subscribers@);
        } else {
            assert(t.drop_first() =~= s.drop_first().push(e));
            lemma_subs_push(s.drop_first(), e, q);
            assert(subs_in_seq(t, q) == subs_in_seq(t.drop_first(), q));
            assert(subs_in_seq(s, q) == subs_in_seq(s.drop_first(), q));
        }
    }
}

/// Copies a list of connection identifiers.
fn copy_ids(v: &Vec<ConnectionId>) -> (r: Vec<ConnectionId>)
    ensures
        r@ == v@,
{
    let mut r: Vec<ConnectionId> = Vec::new();
    let mut i: usize = 0;
    while i < v.len()
        invariant
            0 <= i <= v.len(),
            r@ == v@.subrange(0, i as int),
        decreases v.len() - i,
    {
        r.push(v[i]);
        i += 1;
        proof {
            assert(r@ =~= v@.subrange(0, i as int));
        }
    }
    proof {
        assert(r@ =~= v@);
    }
    r
}

impl SubscriptionTable {
    /// The model: the subscribers of topic `p`, in subscription order.
    pub closed spec fn subscribers_of(&self, p: Seq<char>) -> Seq<ConnectionId> {
        subs_in_seq(self.entries@, p)
    }

    pub fn new() -> (t: SubscriptionTable)
        ensures
            forall|p: Seq<char>| t.subscribers_of(p) == Seq::<ConnectionId>::empty(),
    {
        SubscriptionTable { entries: Vec::new() }
    }

    /// The index of the entry for `path`, if one exists.
    fn find_topic(&self, path: &String) -> (r: Option<usize>)
        ensures
            match r {
                Some(i) => i < self.entries@.len() && self.entries@[i as int].path@ == path@
                    && forall|j: int| 0 <= j < i ==> self.entries@[j].path@ != path@,
                None => forall|j: int|
                    0 <= j < self.entries@.len() ==> self.entries@[j].path@ != path@,
            },
    {
        let mut i: usize = 0;
        while i < self.entries.len()
            invariant
                0 <= i <= self.entries.len(),
                forall|j: int| 0 <= j < i ==> self.entries@[j].path@ != path@,
            decreases self.entries.len() - i,
        {
            if self.entries[i].path == *path {
                return Some(i);
            }
            i += 1;
        }
        None
    }

    /// Appends `id` to the subscriber list of `path`, creating the entry if
    /// the topic was never seen. No duplicate check is made: subscribing
    /// twice yields two entries.
    pub fn subscribe(&mut self, path: &String, id: ConnectionId)
        ensures
            final(self).subscribers_of(path@) == old(self).subscribers_of(path@).push(id),
            forall|q: Seq<char>|
                q != path@ ==> final(self).subscribers_of(q) == old(self).subscribers_of(q),
    {
        let ghost s0 = self.entries@;
        match self.find_topic(path) {
            Some(i) => {
                proof {
                    lemma_subs_skip(s0, path@, i as int);
                }
                let mut entry = self.entries.remove(i);
                entry.subscribers.push(id);
                self.entries.insert(i, entry);
                proof {
                    let e1 = self.entries@[i as int];
                    assert(self.entries@ =~= s0.update(i as int, e1));
                    assert(e1.subscribers@ == s0[i as int].subscribers@.push(id));
                    assert(s0.skip(i as int)[0] == s0[i as int]);
                    assert forall|q: Seq<char>| #[trigger] subs_in_seq(self.entries@, q) == (if q
                        == path@ {
                        s0[i as int].subscribers@.push(id)
                    } else {
                        subs_in_seq(s0, q)
                    }) by {
                        lemma_subs_update(s0, path@, i as int, e1, q);
                    }
                }
            },
            None => {
                proof {
                    lemma_subs_skip(s0, path@, s0.len() as int);
                    assert(s0.skip(s0.len() as int) =~= Seq::<TopicEntry>::empty());
                }
                let mut subs: Vec<ConnectionId> = Vec::new();
                subs.push(id);
                let entry = TopicEntry { path: path.clone(), subscribers: subs };
                self.entries.push(entry);
                proof {
                    let e1 = self.entries@[s0.len() as int];
                    assert(self.entries@ =~= s0.push(e1));
                    assert(e1.subscribers@ =~= Seq::<ConnectionId>::empty().push(id));
                    assert forall|q: Seq<char>| #[trigger] subs_in_seq(self.entries@, q) == (if q
                        == path@ {
                        Seq::<ConnectionId>::empty().push(id)
                    } else {
                        subs_in_seq(s0, q)
                    }) by {
                        lemma_subs_push(s0, e1, q);
                    }
                }
            },
        }
    }

    /// Removes every occurrence of `id` from the subscriber list of `path`.
    /// A topic or an identifier that is absent is a no-op, not an error.
    pub fn unsubscribe(&mut self, path: &String, id: ConnectionId)
        ensures
            final(self).subscribers_of(path@) == without(old(self).subscribers_of(path@), id),
            forall|q: Seq<char>|
                q != path@ ==> final(self).subscribers_of(q) == old(self).subscribers_of(q),
    {
        let ghost s0 = self.entries@;
        match self.find_topic(path) {
            Some(i) => {
                proof {
                    lemma_subs_skip(s0, path@, i as int);
                    assert(s0.skip(i as int)[0] == s0[i as int]);
                }
                let mut entry = self.entries.remove(i);
                let old_subs = entry.subscribers;
                let mut kept: Vec<ConnectionId> = Vec::new();
                let mut j: usize = 0;
                proof {
                    reveal_with_fuel(Seq::<_>::filter, 2);
                    assert(old_subs@.take(0) =~= Seq::<ConnectionId>::empty());
                    assert(without(old_subs@.take(0), id) =~= Seq::<ConnectionId>::empty());
                }
                while j < old_subs.len()
                    invariant
                        0 <= j <= old_subs.len(),
                        kept@ == without(old_subs@.take(j as int), id),
                    decreases old_subs.len() - j,
                {
                    let ghost pre = old_subs@.take(j as int);
                    let ghost post = old_subs@.take(j as int + 1);
                    proof {
                        reveal_with_fuel(Seq::<_>::filter, 2);
                        assert(post.drop_last() =~= pre);
                        assert(post.last() == old_subs@[j as int]);
                    }
                    if old_subs[j] != id {
                        kept.push(old_subs[j]);
                        proof {
                            assert(without(post, id) == without(pre, id).push(old_subs@[j as int]));
                        }
                    } else {
                        proof {
                            assert(without(post, id) == without(pre, id));
                        }
                    }
                    j += 1;
                }
                proof {
                    assert(old_subs@.take(old_subs@.len() as int) =~= old_subs@);
                }
                entry.subscribers = kept;
                self.entries.insert(i, entry);
                proof {
                    let e1 = self.entries@[i as int];
                    assert(self.entries@ =~= s0.update(i as int, e1));
                    assert(e1.subscribers@ == without(s0[i as int].subscribers@, id));
                    assert forall|q: Seq<char>| #[trigger] subs_in_seq(self.entries@, q) == (if q
                        == path@ {
                        without(s0[i as int].subscribers@, id)
                    } else {
                        subs_in_seq(s0, q)
                    }) by {
                        lemma_subs_update(s0, path@, i as int, e1, q);
                    }
                }
            },
            None => {
                proof {
                    lemma_subs_skip(s0, path@, s0.len() as int);
                    assert(s0.skip(s0.len() as int) =~= Seq::<TopicEntry>::empty());
                    assert(without(Seq::<ConnectionId>::empty(), id) =~= Seq::<
                        ConnectionId,
                    >::empty());
                }
            },
        }
    }

    /// The subscribers of `path`, in subscription order.
    pub fn subscribers(&self, path: &String) -> (subs: Vec<ConnectionId>)
        ensures
            subs@ == self.subscribers_of(path@),
    {
        match self.find_topic(path) {
            Some(i) => {
                proof {
                    lemma_subs_skip(self.entries@, path@, i as int);
                    assert(self.entries@.skip(i as int)[0] == self.entries@[i as int]);
                }
                copy_ids(&self.entries[i].subscribers)
            },
            None => {
                proof {
                    lemma_subs_skip(self.entries@, path@, self.entries@.len() as int);
                    assert(self.entries@.skip(self.entries@.len() as int) =~= Seq::<
                        TopicEntry,
                    >::empty());
                }
                Vec::new()
            },
        }
    }
}

} // verus!
