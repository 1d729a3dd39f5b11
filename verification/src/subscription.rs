//! The subscription state one worker owns: a topic index from topic to the
//! set of subscribers currently receiving it, and an interest index from
//! subscriber to the set of topics it subscribed, kept mutually consistent.
//!
//! Both indices live in [`SliceMap`]s; the interest index is keyed by the
//! fixed 8-byte encoding of the subscriber identity.

use vstd::prelude::*;
use crate::protocol::SubscriberId;
use crate::slice_map::SliceMap;
use vstd::slice::slice_to_vec;

verus! {

/// The byte-string key under which a subscriber's interests are indexed:
/// the big-endian bytes of its identity.
pub open spec fn id_bytes(s: SubscriberId) -> Seq<u8> {
    seq![
        (s.id >> 56) as u8,
        (s.id >> 48) as u8,
        (s.id >> 40) as u8,
        (s.id >> 32) as u8,
        (s.id >> 24) as u8,
        (s.id >> 16) as u8,
        (s.id >> 8) as u8,
        s.id as u8,
    ]
}

/// Different subscribers never share an interest-index key.
pub proof fn lemma_id_bytes_injective(a: SubscriberId, b: SubscriberId)
    requires
        id_bytes(a) == id_bytes(b),
    ensures
        a == b,
{
    let x = a.id;
    let y = b.id;
    assert(id_bytes(a)[0] == id_bytes(b)[0]);
    assert(id_bytes(a)[1] == id_bytes(b)[1]);
    assert(id_bytes(a)[2] == id_bytes(b)[2]);
    assert(id_bytes(a)[3] == id_bytes(b)[3]);
    assert(id_bytes(a)[4] == id_bytes(b)[4]);
    assert(id_bytes(a)[5] == id_bytes(b)[5]);
    assert(id_bytes(a)[6] == id_bytes(b)[6]);
    assert(id_bytes(a)[7] == id_bytes(b)[7]);
    assert((((x >> 56) as u8) == ((y >> 56) as u8) && ((x >> 48) as u8) == ((y >> 48) as u8) && ((
    x >> 40) as u8) == ((y >> 40) as u8) && ((x >> 32) as u8) == ((y >> 32) as u8) && ((x
        >> 24) as u8) == ((y >> 24) as u8) && ((x >> 16) as u8) == ((y >> 16) as u8) && ((x
        >> 8) as u8) == ((y >> 8) as u8) && (x as u8) == (y as u8)) ==> x == y) by (bit_vector);
}

/// Computes [`id_bytes`] of a subscriber.
pub fn id_key(s: SubscriberId) -> (r: Vec<u8>)
    ensures
        r@ == id_bytes(s),
{
    let mut v: Vec<u8> = Vec::new();
    v.push((s.id >> 56) as u8);
    v.push((s.id >> 48) as u8);
    v.push((s.id >> 40) as u8);
    v.push((s.id >> 32) as u8);
    v.push((s.id >> 24) as u8);
    v.push((s.id >> 16) as u8);
    v.push((s.id >> 8) as u8);
    v.push(s.id as u8);
    proof {
        assert(v@ =~= id_bytes(s));
    }
    v
}

/// A set of subscriber identities, stored as a duplicate-free vector.
pub struct SubscriberSet {
    items: Vec<SubscriberId>,
}

impl View for SubscriberSet {
    type V = Set<SubscriberId>;

    closed spec fn view(&self) -> Set<SubscriberId> {
        Set::new(|id: SubscriberId| self.items@.contains(id))
    }
}

impl SubscriberSet {
    /// No identity occurs twice.
    pub closed spec fn wf(self) -> bool {
        forall|i: int, j: int|
            #![trigger self.items@[i], self.items@[j]]
            0 <= i < j < self.items@.len() ==> self.items@[i] != self.items@[j]
    }

    proof fn lemma_distinct_at(s: SubscriberSet, i: int, j: int)
        requires
            s.wf(),
            0 <= i < j < s.items@.len(),
        ensures
            s.items@[i] != s.items@[j],
    {
    }

    /// An empty set.
    pub fn new() -> (r: SubscriberSet)
        ensures
            r.wf(),
            r@ == Set::<SubscriberId>::empty(),
    {
        let r = SubscriberSet { items: Vec::new() };
        proof {
            assert(r@ =~= Set::<SubscriberId>::empty());
        }
        r
    }

    /// Membership test.
    pub fn contains_sub(&self, s: SubscriberId) -> (r: bool)
        ensures
            r == self@.contains(s),
    {
        let mut i: usize = 0;
        while i < self.items.len()
            invariant
                i <= self.items@.len(),
                forall|j: int| 0 <= j < i ==> self.items@[j] != s,
            decreases self.items@.len() - i,
        {
            if self.items[i] == s {
                return true;
            }
            i = i + 1;
        }
        false
    }

    /// Adds an identity; adding one already present changes nothing.
    pub fn insert_sub(&mut self, s: SubscriberId)
        requires
            old(self).wf(),
        ensures
            final(self).wf(),
            final(self)@ == old(self)@.insert(s),
    {
        let ghost orig = *old(self);
        if !self.contains_sub(s) {
            self.items.push(s);
            proof {
                let pre = old(self).items@;
                assert(self.items@[pre.len() as int] == s);
                assert forall|id: SubscriberId| self.items@.contains(id) implies pre.contains(id)
                    || id == s by {
                    let j = choose|j: int| 0 <= j < self.items@.len() && self.items@[j] == id;
                    if j < pre.len() {
                        assert(pre[j] == id);
                    }
                }
                assert forall|id: SubscriberId| pre.contains(id) implies self.items@.contains(
                    id,
                ) by {
                    let j = choose|j: int| 0 <= j < pre.len() && pre[j] == id;
                    assert(self.items@[j] == id);
                }
                assert forall|i2: int, j2: int|
                    0 <= i2 < j2 < self.items@.len() implies self.items@[i2]
                    != self.items@[j2] by {
                    if j2 == self.items@.len() - 1 {
                        assert(self.items@[i2] == pre[i2]);
                        assert(pre.contains(pre[i2]));
                    } else {
                        assert(self.items@[i2] == pre[i2] && self.items@[j2] == pre[j2]);
                        Self::lemma_distinct_at(orig, i2, j2);
                    }
                }
            }
        }
        proof {
            assert(self@ =~= old(self)@.insert(s));
        }
    }

    /// Removes an identity; removing one not present changes nothing.
    pub fn remove_sub(&mut self, s: SubscriberId)
        requires
            old(self).wf(),
        ensures
            final(self).wf(),
            final(self)@ == old(self)@.remove(s),
    {
        let ghost orig = *old(self);
        let mut i: usize = 0;
        while i < self.items.len()
            invariant
                i <= self.items@.len(),
                forall|j: int| 0 <= j < i ==> self.items@[j] != s,
                self.items@ == old(self).items@,
                old(self).wf(),
            decreases self.items@.len() - i,
        {
            if self.items[i] == s {
                let ghost pre = self.items@;
                let _ = self.items.remove(i);
                proof {
                    pre.remove_ensures(i as int);
                    assert(pre == old(self).items@);
                    assert(self.items@ == pre.remove(i as int));
                    assert forall|id: SubscriberId| self.items@.contains(id) implies
                        pre.contains(id) && id != s by {
                        let j = choose|j: int| 0 <= j < self.items@.len() && self.items@[j] == id;
                        if j < i {
                            assert(pre[j] == id);
                        } else {
                            assert(pre[j + 1] == id);
                            Self::lemma_distinct_at(*old(self), i as int, j + 1);
                        }
                    }
                    assert forall|id: SubscriberId| pre.contains(id) && id != s implies
                        self.items@.contains(id) by {
                        let j = choose|j: int| 0 <= j < pre.len() && pre[j] == id;
                        if j < i {
                            assert(self.items@[j] == id);
                        } else {
                            assert(j != i);
                            assert(self.items@[j - 1] == id);
                        }
                    }
                    assert forall|i2: int, j2: int|
                        0 <= i2 < j2 < self.items@.len() implies self.items@[i2]
                        != self.items@[j2] by {
                        let pi = if i2 < i { i2 } else { i2 + 1 };
                        let pj = if j2 < i { j2 } else { j2 + 1 };
                        assert(self.items@[i2] == pre[pi] && self.items@[j2] == pre[pj]);
                        Self::lemma_distinct_at(*old(self), pi, pj);
                    }
                    assert(self@ =~= old(self)@.remove(s));
                }
                return ;
            }
            i = i + 1;
        }
        proof {
            assert(!old(self)@.contains(s));
            assert(self@ =~= old(self)@.remove(s));
        }
    }

    /// True when no identity is in the set.
    pub fn is_empty(&self) -> (r: bool)
        ensures
            r == (self@ == Set::<SubscriberId>::empty()),
    {
        let r = self.items.len() == 0;
        proof {
            if self.items@.len() == 0 {
                assert(self@ =~= Set::<SubscriberId>::empty());
            } else {
                assert(self.items@.contains(self.items@[0]));
                assert(self@.contains(self.items@[0]));
            }
        }
        r
    }

    /// The members, each exactly once.
    pub fn members(&self) -> (r: Vec<SubscriberId>)
        requires
            self.wf(),
        ensures
            forall|id: SubscriberId| r@.contains(id) == self@.contains(id),
            forall|i: int, j: int| 0 <= i < j < r@.len() ==> r@[i] != r@[j],
    {
        let mut r: Vec<SubscriberId> = Vec::new();
        let mut i: usize = 0;
        while i < self.items.len()
            invariant
                i <= self.items@.len(),
                r@ == self.items@.take(i as int),
            decreases self.items@.len() - i,
        {
            r.push(self.items[i]);
            proof {
                assert(r@ =~= self.items@.take(i + 1));
            }
            i = i + 1;
        }
        proof {
            assert(r@ =~= self.items@);
        }
        r
    }

    /// A copy with the same members.
    pub fn duplicate(&self) -> (r: SubscriberSet)
        requires
            self.wf(),
        ensures
            r.wf(),
            r@ == self@,
    {
        let items = self.members();
        let r = SubscriberSet { items };
        proof {
            assert(r@ =~= self@);
        }
        r
    }
}

/// A set of topics, stored as a duplicate-free vector of byte vectors;
/// membership is by byte content.
pub struct TopicSet {
    items: Vec<Vec<u8>>,
}

impl View for TopicSet {
    type V = Set<Seq<u8>>;

    closed spec fn view(&self) -> Set<Seq<u8>> {
        Set::new(|t: Seq<u8>| exists|i: int| 0 <= i < self.items@.len() && self.items@[i]@ == t)
    }
}

impl TopicSet {
    proof fn lemma_distinct_at(s: TopicSet, i: int, j: int)
        requires
            s.wf(),
            0 <= i < j < s.items@.len(),
        ensures
            s.items@[i]@ != s.items@[j]@,
    {
    }

    /// No topic occurs twice.
    pub closed spec fn wf(self) -> bool {
        forall|i: int, j: int|
            #![trigger self.items@[i], self.items@[j]]
            0 <= i < j < self.items@.len() ==> self.items@[i]@ != self.items@[j]@
    }

    /// An empty set.
    pub fn new() -> (r: TopicSet)
        ensures
            r.wf(),
            r@ == Set::<Seq<u8>>::empty(),
    {
        let r = TopicSet { items: Vec::new() };
        proof {
            assert(r@ =~= Set::<Seq<u8>>::empty());
        }
        r
    }

    /// Membership test, by byte content.
    pub fn contains_topic(&self, t: &[u8]) -> (r: bool)
        ensures
            r == self@.contains(t@),
    {
        let mut i: usize = 0;
        while i < self.items.len()
            invariant
                i <= self.items@.len(),
                forall|j: int| 0 <= j < i ==> self.items@[j]@ != t@,
            decreases self.items@.len() - i,
        {
            if crate::bucket::bytes_eq(self.items[i].as_slice(), t) {
                proof {
                    assert(self@.contains(t@));
                }
                return true;
            }
            i = i + 1;
        }
        false
    }

    /// Adds a topic; adding one already present changes nothing.
    pub fn insert_topic(&mut self, t: &[u8])
        requires
            old(self).wf(),
        ensures
            final(self).wf(),
            final(self)@ == old(self)@.insert(t@),
    {
        let ghost orig = *old(self);
        if !self.contains_topic(t) {
            self.items.push(slice_to_vec(t));
            proof {
                let pre = old(self).items@;
                assert(self.items@[pre.len() as int]@ == t@);
                assert(self@.contains(t@));
                assert forall|t2: Seq<u8>| self@.contains(t2) implies old(self)@.contains(t2) || t2
                    == t@ by {
                    let j = choose|j: int| 0 <= j < self.items@.len() && self.items@[j]@ == t2;
                    if j < pre.len() {
                        assert(pre[j]@ == t2);
                    }
                }
                assert forall|t2: Seq<u8>| old(self)@.contains(t2) implies self@.contains(t2) by {
                    let j = choose|j: int| 0 <= j < pre.len() && pre[j]@ == t2;
                    assert(self.items@[j]@ == t2);
                }
                assert forall|i2: int, j2: int|
                    0 <= i2 < j2 < self.items@.len() implies self.items@[i2]@
                    != self.items@[j2]@ by {
                    if j2 == self.items@.len() - 1 {
                        assert(self.items@[i2] == pre[i2]);
                        assert(old(self)@.contains(pre[i2]@));
                    } else {
                        assert(self.items@[i2] == pre[i2] && self.items@[j2] == pre[j2]);
                        Self::lemma_distinct_at(orig, i2, j2);
                    }
                }
            }
        }
        proof {
            assert(self@ =~= old(self)@.insert(t@));
        }
    }

    /// Removes a topic; removing one not present changes nothing.
    pub fn remove_topic(&mut self, t: &[u8])
        requires
            old(self).wf(),
        ensures
            final(self).wf(),
            final(self)@ == old(self)@.remove(t@),
    {
        let ghost orig = *old(self);
        let mut i: usize = 0;
        while i < self.items.len()
            invariant
                i <= self.items@.len(),
                forall|j: int| 0 <= j < i ==> self.items@[j]@ != t@,
                self.items@ == old(self).items@,
                old(self).wf(),
            decreases self.items@.len() - i,
        {
            if crate::bucket::bytes_eq(self.items[i].as_slice(), t) {
                let ghost pre = self.items@;
                let _ = self.items.remove(i);
                proof {
                    pre.remove_ensures(i as int);
                    assert(pre == old(self).items@);
                    assert(self.items@ == pre.remove(i as int));
                    assert forall|t2: Seq<u8>| self@.contains(t2) implies old(self)@.contains(t2)
                        && t2 != t@ by {
                        let j = choose|j: int|
                            0 <= j < self.items@.len() && self.items@[j]@ == t2;
                        if j < i {
                            assert(pre[j]@ == t2);
                        } else {
                            assert(pre[j + 1]@ == t2);
                            Self::lemma_distinct_at(*old(self), i as int, j + 1);
                        }
                    }
                    assert forall|t2: Seq<u8>| old(self)@.contains(t2) && t2 != t@ implies
                        self@.contains(t2) by {
                        let j = choose|j: int| 0 <= j < pre.len() && pre[j]@ == t2;
                        if j < i {
                            assert(self.items@[j]@ == t2);
                        } else {
                            assert(j != i);
                            assert(self.items@[j - 1]@ == t2);
                        }
                    }
                    assert forall|i2: int, j2: int|
                        0 <= i2 < j2 < self.items@.len() implies self.items@[i2]@
                        != self.items@[j2]@ by {
                        let pi = if i2 < i { i2 } else { i2 + 1 };
                        let pj = if j2 < i { j2 } else { j2 + 1 };
                        assert(self.items@[i2] == pre[pi] && self.items@[j2] == pre[pj]);
                        Self::lemma_distinct_at(*old(self), pi, pj);
                    }
                    assert(self@ =~= old(self)@.remove(t@));
                }
                return ;
            }
            i = i + 1;
        }
        proof {
            assert(!old(self)@.contains(t@));
            assert(self@ =~= old(self)@.remove(t@));
        }
    }

    /// True when no topic is in the set.
    pub fn is_empty(&self) -> (r: bool)
        ensures
            r == (self@ == Set::<Seq<u8>>::empty()),
    {
        let r = self.items.len() == 0;
        proof {
            if self.items@.len() == 0 {
                assert(self@ =~= Set::<Seq<u8>>::empty());
            } else {
                assert(self@.contains(self.items@[0]@));
            }
        }
        r
    }

    /// A copy with the same members.
    pub fn duplicate(&self) -> (r: TopicSet)
        requires
            self.wf(),
        ensures
            r.wf(),
            r@ == self@,
    {
        let mut items: Vec<Vec<u8>> = Vec::new();
        let mut i: usize = 0;
        while i < self.items.len()
            invariant
                i <= self.items@.len(),
                items@.len() == i,
                forall|j: int| 0 <= j < i ==> (#[trigger] items@[j])@ == self.items@[j]@,
            decreases self.items@.len() - i,
        {
            items.push(slice_to_vec(self.items[i].as_slice()));
            i = i + 1;
        }
        let r = TopicSet { items };
        proof {
            assert forall|t2: Seq<u8>| r@.contains(t2) implies self@.contains(t2) by {
                let j = choose|j: int| 0 <= j < r.items@.len() && r.items@[j]@ == t2;
                assert(self.items@[j]@ == t2);
            }
            assert forall|t2: Seq<u8>| self@.contains(t2) implies r@.contains(t2) by {
                let j = choose|j: int| 0 <= j < self.items@.len() && self.items@[j]@ == t2;
                assert(r.items@[j]@ == t2);
            }
            assert(r@ =~= self@);
            assert forall|i2: int, j2: int|
                0 <= i2 < j2 < r.items@.len() implies r.items@[i2]@ != r.items@[j2]@ by {
                Self::lemma_distinct_at(*self, i2, j2);
            }
        }
        r
    }
}

/// One worker's complete subscription state: the topic index and the
/// interest index, mutually consistent.
///
/// For every subscriber `s` and topic `t`, `s` is in the topic index's
/// entry for `t` exactly when `t` is in the interest index's entry for `s`,
/// and neither index ever keeps an empty entry.
pub struct SubscriptionState {
    topic_map: SliceMap<SubscriberSet>,
    interest_map: SliceMap<TopicSet>,
}

/// The topic index after `s` subscribes to `t`: `s` joins `t`'s entry,
/// which is created if absent.
pub open spec fn sub_topics(
    m: Map<Seq<u8>, Set<SubscriberId>>,
    t: Seq<u8>,
    s: SubscriberId,
) -> Map<Seq<u8>, Set<SubscriberId>> {
    m.insert(
        t,
        if m.contains_key(t) {
            m[t].insert(s)
        } else {
            Set::<SubscriberId>::empty().insert(s)
        },
    )
}

/// The interest index after `s` subscribes to `t`.
pub open spec fn sub_interests(
    m: Map<SubscriberId, Set<Seq<u8>>>,
    s: SubscriberId,
    t: Seq<u8>,
) -> Map<SubscriberId, Set<Seq<u8>>> {
    m.insert(
        s,
        if m.contains_key(s) {
            m[s].insert(t)
        } else {
            Set::<Seq<u8>>::empty().insert(t)
        },
    )
}

/// The topic index after `s` unsubscribes from `t`: `s` leaves `t`'s
/// entry, and an entry left empty is deleted, never kept.
pub open spec fn unsub_topics(
    m: Map<Seq<u8>, Set<SubscriberId>>,
    t: Seq<u8>,
    s: SubscriberId,
) -> Map<Seq<u8>, Set<SubscriberId>> {
    if m.contains_key(t) {
        if m[t].remove(s) == Set::<SubscriberId>::empty() {
            m.remove(t)
        } else {
            m.insert(t, m[t].remove(s))
        }
    } else {
        m
    }
}

/// The interest index after `s` unsubscribes from `t`.
pub open spec fn unsub_interests(
    m: Map<SubscriberId, Set<Seq<u8>>>,
    s: SubscriberId,
    t: Seq<u8>,
) -> Map<SubscriberId, Set<Seq<u8>>> {
    if m.contains_key(s) {
        if m[s].remove(t) == Set::<Seq<u8>>::empty() {
            m.remove(s)
        } else {
            m.insert(s, m[s].remove(t))
        }
    } else {
        m
    }
}

/// The topic index after `s` deregisters: `s` leaves every entry, and the
/// entries left empty are deleted.
pub open spec fn dereg_topics(
    m: Map<Seq<u8>, Set<SubscriberId>>,
    s: SubscriberId,
) -> Map<Seq<u8>, Set<SubscriberId>> {
    Map::new(
        |t: Seq<u8>| m.contains_key(t) && m[t].remove(s) != Set::<SubscriberId>::empty(),
        |t: Seq<u8>| m[t].remove(s),
    )
}

impl SubscriptionState {
    /// The topic index: which subscribers receive each topic.
    pub closed spec fn topics(self) -> Map<Seq<u8>, Set<SubscriberId>> {
        Map::new(
            |t: Seq<u8>| self.topic_map@.contains_key(t),
            |t: Seq<u8>| self.topic_map@[t]@,
        )
    }

    /// The interest index: which topics each subscriber subscribed.
    pub closed spec fn interests(self) -> Map<SubscriberId, Set<Seq<u8>>> {
        Map::new(
            |s: SubscriberId| self.interest_map@.contains_key(id_bytes(s)),
            |s: SubscriberId| self.interest_map@[id_bytes(s)]@,
        )
    }

    /// `s` currently receives topic `t`.
    pub open spec fn topic_has(self, t: Seq<u8>, s: SubscriberId) -> bool {
        self.topics().contains_key(t) && self.topics()[t].contains(s)
    }

    /// `t` is recorded among `s`'s interests.
    pub open spec fn interest_has(self, s: SubscriberId, t: Seq<u8>) -> bool {
        self.interests().contains_key(s) && self.interests()[s].contains(t)
    }

    spec fn topic_side_wf(self) -> bool {
        &&& self.topic_map.wf()
        &&& forall|t: Seq<u8>| #[trigger]
            self.topic_map@.contains_key(t) ==> self.topic_map@[t].wf() && self.topic_map@[t]@
                != Set::<SubscriberId>::empty()
    }

    spec fn interest_side_wf(self) -> bool {
        &&& self.interest_map.wf()
        &&& forall|k: Seq<u8>| #[trigger]
            self.interest_map@.contains_key(k) ==> self.interest_map@[k].wf()
                && self.interest_map@[k]@ != Set::<Seq<u8>>::empty()
    }

    /// The indices are well formed, no entry of either is empty, and the
    /// two are mutually consistent: `s` is in `t`'s topic entry exactly
    /// when `t` is in `s`'s interest entry.
    pub closed spec fn wf(self) -> bool {
        &&& self.topic_side_wf()
        &&& self.interest_side_wf()
        &&& forall|t: Seq<u8>, s: SubscriberId|
            #![trigger self.topic_has(t, s)]
            #![trigger self.interest_has(s, t)]
            self.topic_has(t, s) <==> self.interest_has(s, t)
    }

    /// A state with no subscriptions.
    pub fn new() -> (r: SubscriptionState)
        ensures
            r.wf(),
            r.topics() == Map::<Seq<u8>, Set<SubscriberId>>::empty(),
            r.interests() == Map::<SubscriberId, Set<Seq<u8>>>::empty(),
    {
        let r = SubscriptionState { topic_map: SliceMap::new(), interest_map: SliceMap::new() };
        proof {
            assert(r.topics() =~= Map::<Seq<u8>, Set<SubscriberId>>::empty());
            assert(r.interests() =~= Map::<SubscriberId, Set<Seq<u8>>>::empty());
        }
        r
    }

    /// Adds `s` to `t`'s entry and `t` to `s`'s interests; both entries
    /// are created if absent.  Subscribing a second time changes nothing.
    pub fn subscribe(&mut self, topic: &[u8], s: SubscriberId)
        requires
            old(self).wf(),
        ensures
            final(self).wf(),
            final(self).topics() == sub_topics(old(self).topics(), topic@, s),
            final(self).interests() == sub_interests(old(self).interests(), s, topic@),
    {
        let new_set = match self.topic_map.get(topic) {
            Some(set0) => {
                let mut ns = set0.duplicate();
                ns.insert_sub(s);
                ns
            },
            None => {
                let mut ns = SubscriberSet::new();
                ns.insert_sub(s);
                ns
            },
        };
        self.topic_map.insert(topic, new_set);
        let skey = id_key(s);
        let new_ts = match self.interest_map.get(skey.as_slice()) {
            Some(ts0) => {
                let mut nts = ts0.duplicate();
                nts.insert_topic(topic);
                nts
            },
            None => {
                let mut nts = TopicSet::new();
                nts.insert_topic(topic);
                nts
            },
        };
        self.interest_map.insert(skey.as_slice(), new_ts);
        proof {
            let pre = *old(self);
            assert(self.topics() =~= sub_topics(pre.topics(), topic@, s));
            assert forall|s2: SubscriberId| #[trigger]
                self.interests().contains_key(s2) == sub_interests(
                    pre.interests(),
                    s,
                    topic@,
                ).contains_key(s2) && (self.interests().contains_key(s2)
                ==> self.interests()[s2] == sub_interests(pre.interests(), s, topic@)[s2]) by {
                if id_bytes(s2) == id_bytes(s) {
                    lemma_id_bytes_injective(s2, s);
                }
            }
            assert(self.interests() =~= sub_interests(pre.interests(), s, topic@));
            lemma_sub_wf(pre, *self, topic@, s, new_set, new_ts);
        }
    }
}

impl SubscriptionState {
    /// Removes `s` from `t`'s entry and `t` from `s`'s interests; an entry
    /// left empty is deleted.  Removing a subscription that does not exist
    /// is a no-op, not an error.
    pub fn unsubscribe(&mut self, topic: &[u8], s: SubscriberId)
        requires
            old(self).wf(),
        ensures
            final(self).wf(),
            final(self).topics() == unsub_topics(old(self).topics(), topic@, s),
            final(self).interests() == unsub_interests(old(self).interests(), s, topic@),
    {
        match self.topic_map.get(topic) {
            Some(set0) => {
                let mut ns = set0.duplicate();
                ns.remove_sub(s);
                if ns.is_empty() {
                    self.topic_map.delete(topic);
                } else {
                    self.topic_map.insert(topic, ns);
                }
            },
            None => {},
        }
        proof {
            assert(self.topics() =~= unsub_topics(old(self).topics(), topic@, s));
            assert(self.interest_map@ == old(self).interest_map@);
        }
        let skey = id_key(s);
        let ghost mid = *self;
        match self.interest_map.get(skey.as_slice()) {
            Some(ts0) => {
                let mut nts = ts0.duplicate();
                nts.remove_topic(topic);
                if nts.is_empty() {
                    self.interest_map.delete(skey.as_slice());
                } else {
                    self.interest_map.insert(skey.as_slice(), nts);
                }
            },
            None => {},
        }
        proof {
            assert(self.topic_map@ == mid.topic_map@);
            assert forall|s2: SubscriberId| #[trigger]
                self.interests().contains_key(s2) == unsub_interests(
                    old(self).interests(),
                    s,
                    topic@,
                ).contains_key(s2) && (self.interests().contains_key(s2)
                ==> self.interests()[s2] == unsub_interests(
                old(self).interests(),
                s,
                topic@,
            )[s2]) by {
                if id_bytes(s2) == id_bytes(s) {
                    lemma_id_bytes_injective(s2, s);
                }
            }
            assert(self.interests() =~= unsub_interests(old(self).interests(), s, topic@));
            lemma_unsub_wf(*old(self), *self, topic@, s);
        }
    }

    /// Purges every subscription of `s`: removes `s`'s interest entry and,
    /// for each topic in it, removes `s` from that topic's entry, deleting
    /// entries left empty.  Deregistering an unknown subscriber is a no-op.
    pub fn deregister(&mut self, s: SubscriberId)
        requires
            old(self).wf(),
        ensures
            final(self).wf(),
            final(self).topics() == dereg_topics(old(self).topics(), s),
            final(self).interests() == old(self).interests().remove(s),
    {
        let skey = id_key(s);
        match self.interest_map.take(skey.as_slice()) {
            Some(ts) => {
                proof {
                    assert(old(self).interests().contains_key(s));
                    assert(ts@ == old(self).interests()[s]);
                    assert(ts.wf());
                    assert(self.topics() =~= dereg_partial(
                        old(self).topics(),
                        s,
                        prefix_topics(ts.items@, 0),
                    ));
                }
                let mut i: usize = 0;
                while i < ts.items.len()
                    invariant
                        i <= ts.items@.len(),
                        old(self).wf(),
                        ts.wf(),
                        old(self).interests().contains_key(s),
                        ts@ == old(self).interests()[s],
                        self.topic_side_wf(),
                        self.interest_map.wf(),
                        self.interest_map@ == old(self).interest_map@.remove(id_bytes(s)),
                        self.topics() == dereg_partial(
                            old(self).topics(),
                            s,
                            prefix_topics(ts.items@, i as int),
                        ),
                    decreases ts.items@.len() - i,
                {
                    let ghost it_pre = *self;
                    let ghost t_cur = ts.items@[i as int]@;
                    proof {
                        assert(ts@.contains(t_cur));
                        assert(old(self).interest_has(s, t_cur));
                        assert(old(self).topic_has(t_cur, s));
                        assert(!prefix_topics(ts.items@, i as int).contains(t_cur)) by {
                            if prefix_topics(ts.items@, i as int).contains(t_cur) {
                                let j = choose|j: int|
                                    0 <= j < i && ts.items@[j]@ == t_cur;
                                TopicSet::lemma_distinct_at(ts, j, i as int);
                            }
                        }
                        assert(it_pre.topics().contains_key(t_cur));
                    }
                    let topic = &ts.items[i];
                    match self.topic_map.get(topic.as_slice()) {
                        Some(set0) => {
                            let mut ns = set0.duplicate();
                            ns.remove_sub(s);
                            if ns.is_empty() {
                                self.topic_map.delete(topic.as_slice());
                            } else {
                                self.topic_map.insert(topic.as_slice(), ns);
                            }
                        },
                        None => {},
                    }
                    proof {
                        assert(self.topics() =~= unsub_topics(it_pre.topics(), t_cur, s));
                        lemma_topic_side_wf_after_unsub(it_pre, *self, t_cur, s);
                        lemma_dereg_step(
                            old(self).topics(),
                            s,
                            prefix_topics(ts.items@, i as int),
                            t_cur,
                        );
                        assert(prefix_topics(ts.items@, i + 1) =~= prefix_topics(
                            ts.items@,
                            i as int,
                        ).insert(t_cur)) by {
                            assert forall|t2: Seq<u8>|
                                prefix_topics(ts.items@, i + 1).contains(t2) implies
                                prefix_topics(ts.items@, i as int).insert(t_cur).contains(
                                    t2,
                                ) by {
                                let j = choose|j: int| 0 <= j < i + 1 && ts.items@[j]@ == t2;
                                if j < i {
                                    assert(prefix_topics(ts.items@, i as int).contains(t2));
                                }
                            }
                        }
                        assert(self.topics() == dereg_partial(
                            old(self).topics(),
                            s,
                            prefix_topics(ts.items@, i + 1),
                        ));
                    }
                    i = i + 1;
                }
                proof {
                    assert(prefix_topics(ts.items@, ts.items@.len() as int) =~= ts@);
                    lemma_dereg_complete(*old(self), s, ts@);
                    assert forall|s2: SubscriberId| #[trigger]
                        self.interests().contains_key(s2) == old(self).interests().remove(
                            s,
                        ).contains_key(s2) && (self.interests().contains_key(s2)
                        ==> self.interests()[s2] == old(self).interests().remove(s)[s2]) by {
                        if id_bytes(s2) == id_bytes(s) {
                            lemma_id_bytes_injective(s2, s);
                        }
                    }
                    assert(self.interests() =~= old(self).interests().remove(s));
                    assert forall|k: Seq<u8>| #[trigger]
                        self.interest_map@.contains_key(k) implies old(
                        self,
                    ).interest_map@.contains_key(k) && self.interest_map@[k] == old(
                        self,
                    ).interest_map@[k] by {}
                    lemma_dereg_wf(*old(self), *self, s);
                }
            },
            None => {
                proof {
                    assert(!old(self).interests().contains_key(s));
                    assert forall|s2: SubscriberId| #[trigger]
                        self.interests().contains_key(s2) == old(self).interests().remove(
                            s,
                        ).contains_key(s2) && (self.interests().contains_key(s2)
                        ==> self.interests()[s2] == old(self).interests().remove(s)[s2]) by {
                        if id_bytes(s2) == id_bytes(s) {
                            lemma_id_bytes_injective(s2, s);
                        }
                    }
                    assert(self.interests() =~= old(self).interests().remove(s));
                    assert forall|t: Seq<u8>|
                        #![trigger dereg_topics(old(self).topics(), s).contains_key(t)]
                        self.topics().contains_key(t) == dereg_topics(
                            old(self).topics(),
                            s,
                        ).contains_key(t) && (self.topics().contains_key(t) ==> self.topics()[t]
                        == dereg_topics(old(self).topics(), s)[t]) by {
                        if old(self).topics().contains_key(t) {
                            assert(!old(self).interest_has(s, t));
                            assert(!old(self).topic_has(t, s));
                            assert(!old(self).topics()[t].contains(s));
                            assert(old(self).topics()[t].remove(s) =~= old(self).topics()[t]);
                            assert(old(self).topics()[t] != Set::<SubscriberId>::empty());
                        }
                    }
                    assert(self.topics() =~= dereg_topics(old(self).topics(), s));
                    assert forall|k: Seq<u8>| #[trigger]
                        self.interest_map@.contains_key(k) implies old(
                        self,
                    ).interest_map@.contains_key(k) && self.interest_map@[k] == old(
                        self,
                    ).interest_map@[k] by {}
                    assert(self.topic_side_wf());
                    lemma_dereg_wf(*old(self), *self, s);
                }
            },
        }
    }

    /// Whether the topic currently has an entry.  An entry always holds at
    /// least one subscriber: when the last one leaves, the entry is
    /// deleted, never kept empty.
    pub fn has_topic_entry(&self, topic: &[u8]) -> (r: bool)
        requires
            self.wf(),
        ensures
            r == self.topics().contains_key(topic@),
    {
        match self.topic_map.get(topic) {
            Some(_) => true,
            None => false,
        }
    }

    /// Whether `s` currently receives `topic`.
    pub fn is_subscribed(&self, topic: &[u8], s: SubscriberId) -> (r: bool)
        requires
            self.wf(),
        ensures
            r == self.topic_has(topic@, s),
    {
        match self.topic_map.get(topic) {
            Some(set0) => set0.contains_sub(s),
            None => false,
        }
    }

    /// The subscribers a notification for `t` must be forwarded to: each
    /// member of `t`'s entry, exactly once; nobody when `t` has no entry.
    /// No transport is touched here; the caller owns the sockets.
    pub fn publish(&self, topic: &[u8]) -> (r: Vec<SubscriberId>)
        requires
            self.wf(),
        ensures
            forall|s: SubscriberId|
                r@.contains(s) == self.topic_has(topic@, s),
            forall|i: int, j: int| 0 <= i < j < r@.len() ==> r@[i] != r@[j],
    {
        match self.topic_map.get(topic) {
            Some(set0) => {
                let r = set0.members();
                proof {
                    assert forall|s: SubscriberId| r@.contains(s) == self.topic_has(
                        topic@,
                        s,
                    ) by {}
                }
                r
            },
            None => {
                let r: Vec<SubscriberId> = Vec::new();
                r
            },
        }
    }
}

/// Subscribing the same pair a second time changes the topic index no
/// further: the entry holds one occurrence of the subscriber, whether the
/// pair was subscribed once or twice.
pub proof fn lemma_subscribe_topics_idempotent(
    m: Map<Seq<u8>, Set<SubscriberId>>,
    t: Seq<u8>,
    s: SubscriberId,
)
    ensures
        sub_topics(sub_topics(m, t, s), t, s) == sub_topics(m, t, s),
{
    let m1 = sub_topics(m, t, s);
    assert(m1[t].contains(s));
    assert(m1[t].insert(s) =~= m1[t]);
    assert(sub_topics(m1, t, s) =~= m1);
}

/// Subscribing the same pair a second time changes the interest index no
/// further.
pub proof fn lemma_subscribe_interests_idempotent(
    m: Map<SubscriberId, Set<Seq<u8>>>,
    s: SubscriberId,
    t: Seq<u8>,
)
    ensures
        sub_interests(sub_interests(m, s, t), s, t) == sub_interests(m, s, t),
{
    let m1 = sub_interests(m, s, t);
    assert(m1[s].contains(t));
    assert(m1[s].insert(t) =~= m1[s]);
    assert(sub_interests(m1, s, t) =~= m1);
}

/// Unsubscribing the same pair a second time is a no-op: whatever the
/// first call left, the second leaves it unchanged.
pub proof fn lemma_unsubscribe_topics_idempotent(
    m: Map<Seq<u8>, Set<SubscriberId>>,
    t: Seq<u8>,
    s: SubscriberId,
)
    ensures
        unsub_topics(unsub_topics(m, t, s), t, s) == unsub_topics(m, t, s),
{
    let m1 = unsub_topics(m, t, s);
    if m.contains_key(t) && m[t].remove(s) != Set::<SubscriberId>::empty() {
        assert(m1.contains_key(t));
        assert(m1[t] == m[t].remove(s));
        assert(!m1[t].contains(s));
        assert(m1[t].remove(s) =~= m1[t]);
        assert(unsub_topics(m1, t, s) =~= m1);
    } else {
        assert(unsub_topics(m1, t, s) =~= m1);
    }
}

/// Unsubscribing the same pair a second time leaves the interest index
/// unchanged as well.
pub proof fn lemma_unsubscribe_interests_idempotent(
    m: Map<SubscriberId, Set<Seq<u8>>>,
    s: SubscriberId,
    t: Seq<u8>,
)
    ensures
        unsub_interests(unsub_interests(m, s, t), s, t) == unsub_interests(m, s, t),
{
    let m1 = unsub_interests(m, s, t);
    if m.contains_key(s) && m[s].remove(t) != Set::<Seq<u8>>::empty() {
        assert(m1.contains_key(s));
        assert(m1[s] == m[s].remove(t));
        assert(!m1[s].contains(t));
        assert(m1[s].remove(t) =~= m1[s]);
        assert(unsub_interests(m1, s, t) =~= m1);
    } else {
        assert(unsub_interests(m1, s, t) =~= m1);
    }
}

/// Mutual consistency: in a well-formed state, a subscriber is in a
/// topic's entry exactly when the topic is in that subscriber's interest
/// entry.  Every operation of [`SubscriptionState`] keeps the state well
/// formed, so this holds after any sequence of them.
pub proof fn lemma_mutual_consistency(st: SubscriptionState, t: Seq<u8>, s: SubscriberId)
    requires
        st.wf(),
    ensures
        st.topic_has(t, s) <==> st.interest_has(s, t),
{
}

/// A well-formed state keeps no empty topic entry: a topic with no
/// subscribers has no entry at all, which is distinguishable from an entry
/// that is present but empty.
pub proof fn lemma_no_empty_topic_entry(st: SubscriptionState, t: Seq<u8>)
    requires
        st.wf(),
        st.topics().contains_key(t),
    ensures
        st.topics()[t] != Set::<SubscriberId>::empty(),
{
}

/// When the last subscriber of a topic unsubscribes, the topic's entry is
/// deleted outright.
pub proof fn lemma_last_unsubscribe_removes_topic(
    m: Map<Seq<u8>, Set<SubscriberId>>,
    t: Seq<u8>,
    s: SubscriberId,
)
    requires
        m.contains_key(t),
        m[t] == Set::<SubscriberId>::empty().insert(s),
    ensures
        !unsub_topics(m, t, s).contains_key(t),
{
    assert(m[t].remove(s) =~= Set::<SubscriberId>::empty());
}

/// When the last subscriber of a topic deregisters, the topic's entry is
/// deleted outright as well.
pub proof fn lemma_last_deregister_removes_topic(
    m: Map<Seq<u8>, Set<SubscriberId>>,
    t: Seq<u8>,
    s: SubscriberId,
)
    requires
        m.contains_key(t),
        m[t] == Set::<SubscriberId>::empty().insert(s),
    ensures
        !dereg_topics(m, s).contains_key(t),
{
    assert(m[t].remove(s) =~= Set::<SubscriberId>::empty());
}

/// The topics whose entries have already been purged: the first `n` of the
/// deregistered subscriber's interest list.
spec fn prefix_topics(items: Seq<Vec<u8>>, n: int) -> Set<Seq<u8>> {
    Set::new(|t: Seq<u8>| exists|j: int| 0 <= j < n && items[j]@ == t)
}

/// The topic index mid-deregistration: entries for the topics in `done`
/// have lost `s` (and were deleted if empty); the rest still stand.
spec fn dereg_partial(
    m: Map<Seq<u8>, Set<SubscriberId>>,
    s: SubscriberId,
    done: Set<Seq<u8>>,
) -> Map<Seq<u8>, Set<SubscriberId>> {
    Map::new(
        |t: Seq<u8>|
            if done.contains(t) {
                m.contains_key(t) && m[t].remove(s) != Set::<SubscriberId>::empty()
            } else {
                m.contains_key(t)
            },
        |t: Seq<u8>|
            if done.contains(t) {
                m[t].remove(s)
            } else {
                m[t]
            },
    )
}

/// Purging one more topic's entry advances the partial deregistration by
/// exactly that topic.
proof fn lemma_dereg_step(
    m0: Map<Seq<u8>, Set<SubscriberId>>,
    s: SubscriberId,
    done: Set<Seq<u8>>,
    t: Seq<u8>,
)
    requires
        m0.contains_key(t),
        !done.contains(t),
    ensures
        unsub_topics(dereg_partial(m0, s, done), t, s) == dereg_partial(m0, s, done.insert(t)),
{
    let cur = dereg_partial(m0, s, done);
    let next = dereg_partial(m0, s, done.insert(t));
    assert(cur.contains_key(t));
    assert(cur[t] == m0[t]);
    assert forall|t2: Seq<u8>|
        #![trigger next.contains_key(t2)]
        unsub_topics(cur, t, s).contains_key(t2) == next.contains_key(t2) && (
        next.contains_key(t2) ==> unsub_topics(cur, t, s)[t2] == next[t2]) by {
        if t2 == t {
        } else {
            assert(done.insert(t).contains(t2) == done.contains(t2));
        }
    }
    assert(unsub_topics(cur, t, s) =~= next);
}

/// Once every topic of the subscriber's interest set is purged, the
/// partial deregistration is the complete one.
proof fn lemma_dereg_complete(pre: SubscriptionState, s: SubscriberId, done: Set<Seq<u8>>)
    requires
        pre.wf(),
        pre.interests().contains_key(s),
        done == pre.interests()[s],
    ensures
        dereg_partial(pre.topics(), s, done) == dereg_topics(pre.topics(), s),
{
    let m0 = pre.topics();
    assert forall|t: Seq<u8>|
        #![trigger dereg_topics(m0, s).contains_key(t)]
        dereg_partial(m0, s, done).contains_key(t) == dereg_topics(m0, s).contains_key(t) && (
        dereg_topics(m0, s).contains_key(t) ==> dereg_partial(m0, s, done)[t] == dereg_topics(
            m0,
            s,
        )[t]) by {
        if !done.contains(t) {
            assert(!pre.interest_has(s, t));
            assert(!pre.topic_has(t, s));
            if m0.contains_key(t) {
                assert(!m0[t].contains(s));
                assert(m0[t].remove(s) =~= m0[t]);
                assert(m0[t] != Set::<SubscriberId>::empty());
            }
        }
    }
    assert(dereg_partial(m0, s, done) =~= dereg_topics(m0, s));
}

/// The topic side of an unsubscribe keeps the topic index well formed.
proof fn lemma_topic_side_wf_after_unsub(
    pre: SubscriptionState,
    post: SubscriptionState,
    t: Seq<u8>,
    s: SubscriberId,
)
    requires
        pre.topic_side_wf(),
        post.topic_map.wf(),
        post.topics() == unsub_topics(pre.topics(), t, s),
        forall|t2: Seq<u8>| #[trigger]
            post.topic_map@.contains_key(t2) ==> (pre.topic_map@.contains_key(t2)
                && post.topic_map@[t2] == pre.topic_map@[t2]) || (t2 == t
                && post.topic_map@[t2].wf()),
    ensures
        post.topic_side_wf(),
{
    assert forall|t2: Seq<u8>| #[trigger] post.topic_map@.contains_key(t2) implies
        post.topic_map@[t2].wf() && post.topic_map@[t2]@ != Set::<SubscriberId>::empty() by {
        assert(post.topics().contains_key(t2));
        assert(post.topics()[t2] == post.topic_map@[t2]@);
        if t2 == t {
            if pre.topics().contains_key(t2) {
                assert(post.topics()[t2] == pre.topics()[t2].remove(s));
            }
        } else {
            assert(pre.topic_map@.contains_key(t2));
        }
    }
}

/// After a deregistration, the state is well formed again.
proof fn lemma_dereg_wf(pre: SubscriptionState, post: SubscriptionState, s: SubscriberId)
    requires
        pre.wf(),
        post.topic_side_wf(),
        post.interest_map.wf(),
        post.topics() == dereg_topics(pre.topics(), s),
        post.interests() == pre.interests().remove(s),
        forall|k: Seq<u8>| #[trigger]
            post.interest_map@.contains_key(k) ==> pre.interest_map@.contains_key(k)
                && post.interest_map@[k] == pre.interest_map@[k],
    ensures
        post.wf(),
{
    assert forall|k: Seq<u8>| #[trigger] post.interest_map@.contains_key(k) implies
        post.interest_map@[k].wf() && post.interest_map@[k]@ != Set::<Seq<u8>>::empty() by {
        assert(pre.interest_map@.contains_key(k));
    }
    assert forall|t2: Seq<u8>, s2: SubscriberId| #![trigger post.topic_has(t2, s2)]
        #![trigger post.interest_has(s2, t2)] post.topic_has(t2, s2) == post.interest_has(
        s2,
        t2,
    ) by {
        assert(pre.topic_has(t2, s2) == pre.interest_has(s2, t2));
        if s2 == s {
            if post.topics().contains_key(t2) {
                assert(!post.topics()[t2].contains(s));
            }
            assert(!post.topic_has(t2, s2));
            assert(!post.interest_has(s2, t2));
        } else {
            if pre.topics().contains_key(t2) {
                assert(pre.topics()[t2].remove(s).contains(s2) == pre.topics()[t2].contains(s2));
            }
            assert(post.topic_has(t2, s2) == pre.topic_has(t2, s2));
            assert(post.interest_has(s2, t2) == pre.interest_has(s2, t2));
        }
    }
}

/// After the two index updates of an unsubscribe, the state is well formed
/// again.
proof fn lemma_unsub_wf(pre: SubscriptionState, post: SubscriptionState, t: Seq<u8>, s: SubscriberId)
    requires
        pre.wf(),
        post.topic_map.wf(),
        post.interest_map.wf(),
        post.topics() == unsub_topics(pre.topics(), t, s),
        post.interests() == unsub_interests(pre.interests(), s, t),
        forall|t2: Seq<u8>| #[trigger]
            post.topic_map@.contains_key(t2) ==> (pre.topic_map@.contains_key(t2)
                && post.topic_map@[t2] == pre.topic_map@[t2]) || (t2 == t
                && post.topic_map@[t2].wf()),
        forall|k: Seq<u8>| #[trigger]
            post.interest_map@.contains_key(k) ==> (pre.interest_map@.contains_key(k)
                && post.interest_map@[k] == pre.interest_map@[k]) || (k == id_bytes(s)
                && post.interest_map@[k].wf()),
    ensures
        post.wf(),
{
    assert forall|t2: Seq<u8>| #[trigger] post.topic_map@.contains_key(t2) implies
        post.topic_map@[t2].wf() && post.topic_map@[t2]@ != Set::<SubscriberId>::empty() by {
        assert(post.topics().contains_key(t2));
        assert(post.topics()[t2] == post.topic_map@[t2]@);
        if t2 == t {
            if pre.topics().contains_key(t2) {
                assert(post.topics()[t2] == pre.topics()[t2].remove(s));
            }
        } else {
            assert(pre.topic_map@.contains_key(t2));
        }
    }
    assert forall|k: Seq<u8>| #[trigger] post.interest_map@.contains_key(k) implies
        post.interest_map@[k].wf() && post.interest_map@[k]@ != Set::<Seq<u8>>::empty() by {
        if k != id_bytes(s) {
            assert(pre.interest_map@.contains_key(k));
        } else {
            assert(post.interests().contains_key(s));
            assert(post.interests()[s] == post.interest_map@[k]@);
        }
    }
    assert forall|t2: Seq<u8>, s2: SubscriberId| #![trigger post.topic_has(t2, s2)]
        #![trigger post.interest_has(s2, t2)] post.topic_has(t2, s2) == post.interest_has(
        s2,
        t2,
    ) by {
        assert(pre.topic_has(t2, s2) == pre.interest_has(s2, t2));
        if t2 == t && s2 == s {
            assert(!post.topic_has(t2, s2));
            assert(!post.interest_has(s2, t2));
        } else if t2 == t {
            if pre.topics().contains_key(t) {
                assert(pre.topics()[t].remove(s).contains(s2) == pre.topics()[t].contains(s2));
                if pre.topics()[t].remove(s) == Set::<SubscriberId>::empty() {
                    assert(!pre.topics()[t].remove(s).contains(s2));
                }
            }
            assert(post.topic_has(t2, s2) == pre.topic_has(t2, s2));
            assert(post.interest_has(s2, t2) == pre.interest_has(s2, t2));
        } else if s2 == s {
            if pre.interests().contains_key(s) {
                assert(pre.interests()[s].remove(t).contains(t2) == pre.interests()[s].contains(
                    t2,
                ));
                if pre.interests()[s].remove(t) == Set::<Seq<u8>>::empty() {
                    assert(!pre.interests()[s].remove(t).contains(t2));
                }
            }
            assert(post.topic_has(t2, s2) == pre.topic_has(t2, s2));
            assert(post.interest_has(s2, t2) == pre.interest_has(s2, t2));
        } else {
            assert(post.topic_has(t2, s2) == pre.topic_has(t2, s2));
            assert(post.interest_has(s2, t2) == pre.interest_has(s2, t2));
        }
    }
}

/// After the two index updates of a subscribe, the state is well formed
/// again.
proof fn lemma_sub_wf(
    pre: SubscriptionState,
    post: SubscriptionState,
    t: Seq<u8>,
    s: SubscriberId,
    ns: SubscriberSet,
    nts: TopicSet,
)
    requires
        pre.wf(),
        ns.wf(),
        nts.wf(),
        ns@ == (if pre.topics().contains_key(t) {
            pre.topics()[t]
        } else {
            Set::<SubscriberId>::empty()
        }).insert(s),
        nts@ == (if pre.interests().contains_key(s) {
            pre.interests()[s]
        } else {
            Set::<Seq<u8>>::empty()
        }).insert(t),
        post.topic_map.wf(),
        post.interest_map.wf(),
        post.topic_map@ == pre.topic_map@.insert(t, ns),
        post.interest_map@ == pre.interest_map@.insert(id_bytes(s), nts),
    ensures
        post.wf(),
{
    assert(ns@.contains(s));
    assert(ns@ != Set::<SubscriberId>::empty());
    assert(nts@.contains(t));
    assert(nts@ != Set::<Seq<u8>>::empty());
    assert forall|t2: Seq<u8>| #[trigger] post.topic_map@.contains_key(t2) implies
        post.topic_map@[t2].wf() && post.topic_map@[t2]@ != Set::<SubscriberId>::empty() by {
        if t2 != t {
            assert(pre.topic_map@.contains_key(t2));
        }
    }
    assert forall|k: Seq<u8>| #[trigger] post.interest_map@.contains_key(k) implies
        post.interest_map@[k].wf() && post.interest_map@[k]@ != Set::<Seq<u8>>::empty() by {
        if k != id_bytes(s) {
            assert(pre.interest_map@.contains_key(k));
        }
    }
    assert forall|t2: Seq<u8>, s2: SubscriberId| #![trigger post.topic_has(t2, s2)]
        #![trigger post.interest_has(s2, t2)] post.topic_has(t2, s2) == post.interest_has(
        s2,
        t2,
    ) by {
        if id_bytes(s2) != id_bytes(s) || s2 == s {
        } else {
            lemma_id_bytes_injective(s2, s);
        }
        if t2 == t && s2 == s {
            assert(post.topic_has(t2, s2));
            assert(post.interest_has(s2, t2));
        } else if t2 == t {
            assert(post.topic_has(t2, s2) == pre.topic_has(t2, s2));
            assert(post.interest_has(s2, t2) == pre.interest_has(s2, t2));
            assert(pre.topic_has(t2, s2) == pre.interest_has(s2, t2));
        } else if s2 == s {
            assert(post.topic_has(t2, s2) == pre.topic_has(t2, s2));
            assert(post.interest_has(s2, t2) == pre.interest_has(s2, t2));
            assert(pre.topic_has(t2, s2) == pre.interest_has(s2, t2));
        } else {
            assert(post.topic_has(t2, s2) == pre.topic_has(t2, s2));
            assert(post.interest_has(s2, t2) == pre.interest_has(s2, t2));
            assert(pre.topic_has(t2, s2) == pre.interest_has(s2, t2));
        }
    }
}

} // verus!
