//! A service's subscription table: at most one callback per topic name.
use vstd::prelude::*;
use crate::topic::{lemma_topic_round_trip, topic_bytes, topic_frame};

verus! {

/// The topic names held by `entries`, each at most once.
pub open spec fn distinct_topics<C>(entries: Seq<(String, C)>) -> bool {
    forall|i: int, j: int|
        0 <= i < entries.len() && 0 <= j < entries.len() && i != j ==> #[trigger] entries[i].0@
            != #[trigger] entries[j].0@
}

/// Whether some entry of `entries` is registered under `topic`.
pub open spec fn holds_topic<C>(entries: Seq<(String, C)>, topic: Seq<char>) -> bool {
    exists|i: int| 0 <= i < entries.len() && #[trigger] entries[i].0@ == topic
}

/// The callback map that a list of entries stands for.
pub open spec fn entries_map<C>(entries: Seq<(String, C)>) -> Map<Seq<char>, C> {
    Map::new(
        |topic: Seq<char>| holds_topic(entries, topic),
        |topic: Seq<char>|
            entries[choose|i: int| 0 <= i < entries.len() && #[trigger] entries[i].0@ == topic].1,
    )
}

/// With distinct topics, the entry at `i` is what the map holds for its topic.
proof fn lemma_entry_in_map<C>(entries: Seq<(String, C)>, i: int)
    requires
        distinct_topics(entries),
        0 <= i < entries.len(),
    ensures
        entries_map(entries).dom().contains(entries[i].0@),
        entries_map(entries)[entries[i].0@] == entries[i].1,
{
    let topic = entries[i].0@;
    assert(holds_topic(entries, topic));
    let j = choose|j: int| 0 <= j < entries.len() && #[trigger] entries[j].0@ == topic;
    assert(entries[j].0@ == topic);
    if j != i {
        assert(entries[i].0@ != entries[j].0@);
    }
}

/// With distinct topics, the map has one topic per entry.
proof fn lemma_entries_map_size<C>(entries: Seq<(String, C)>)
    requires
        distinct_topics(entries),
    ensures
        entries_map(entries).dom().finite(),
        entries_map(entries).dom().len() == entries.len(),
{
    let keys = entries.map_values(|e: (String, C)| e.0@);
    assert(keys.no_duplicates()) by {
        assert forall|i: int, j: int|
            0 <= i < keys.len() && 0 <= j < keys.len() && i != j implies keys[i] != keys[j] by {
            assert(entries[i].0@ != entries[j].0@);
        }
    }
    keys.unique_seq_to_set();
    assert(entries_map(entries).dom() =~= keys.to_set()) by {
        assert forall|k: Seq<char>|
            #[trigger] entries_map(entries).dom().contains(k) <==> keys.to_set().contains(k) by {
            if holds_topic(entries, k) {
                let w = choose|w: int| 0 <= w < entries.len() && #[trigger] entries[w].0@ == k;
                assert(keys[w] == k);
            }
            if keys.contains(k) {
                let w = choose|w: int| 0 <= w < keys.len() && keys[w] == k;
                assert(entries[w].0@ == k);
            }
        }
    }
    vstd::seq_lib::seq_to_set_is_finite(keys);
}

/// Writing the entry for `key` at `at`, either over the entry that held
/// `key` or after the last entry when none did, keeps the topics distinct
/// and sets `key`'s callback in the map, leaving the other topics' as they
/// were.
proof fn lemma_write_entry<C>(
    before: Seq<(String, C)>,
    after: Seq<(String, C)>,
    at: int,
    key: Seq<char>,
    cb: C,
)
    requires
        distinct_topics(before),
        0 <= at <= before.len(),
        at < before.len() ==> before[at].0@ == key && after.len() == before.len(),
        at == before.len() ==> !holds_topic(before, key) && after.len() == before.len() + 1,
        after[at].0@ == key,
        after[at].1 == cb,
        forall|i: int| 0 <= i < before.len() && i != at ==> #[trigger] after[i] == before[i],
    ensures
        distinct_topics(after),
        entries_map(after) == entries_map(before).insert(key, cb),
{
    assert forall|i: int, j: int|
        0 <= i < after.len() && 0 <= j < after.len() && i != j implies #[trigger] after[i].0@
        != #[trigger] after[j].0@ by {
        if i != at && j != at {
            assert(before[i].0@ != before[j].0@);
        } else if i == at {
            if at < before.len() {
                assert(before[at].0@ != before[j].0@);
            } else {
                assert(before[j].0@ == after[j].0@);
            }
        } else {
            if at < before.len() {
                assert(before[i].0@ != before[at].0@);
            } else {
                assert(before[i].0@ == after[i].0@);
            }
        }
    }
    assert forall|k: Seq<char>|
        #[trigger] entries_map(after).dom().contains(k) <==> entries_map(before).insert(
            key,
            cb,
        ).dom().contains(k) by {
        if holds_topic(after, k) {
            let w = choose|w: int| 0 <= w < after.len() && #[trigger] after[w].0@ == k;
            if w != at {
                assert(before[w].0@ == k);
            }
        }
        if holds_topic(before, k) {
            let w = choose|w: int| 0 <= w < before.len() && #[trigger] before[w].0@ == k;
            if w != at {
                assert(after[w].0@ == k);
            }
        }
        if k == key {
            assert(after[at].0@ == k);
        }
    }
    assert forall|k: Seq<char>|
        #[trigger] entries_map(after).dom().contains(k) implies entries_map(after)[k]
        == entries_map(before).insert(key, cb)[k] by {
        let w = choose|w: int| 0 <= w < after.len() && #[trigger] after[w].0@ == k;
        lemma_entry_in_map(after, w);
        if w != at {
            assert(before[w].0@ == k);
            lemma_entry_in_map(before, w);
        }
    }
    assert(entries_map(after) =~= entries_map(before).insert(key, cb));
}

/// Registering `cb` for `topic` makes a lookup of `topic` find `cb`, and
/// leaves the lookup of every other topic as it was.
pub proof fn lemma_lookup_after_register<C>(
    before: Map<Seq<char>, C>,
    topic: Seq<char>,
    cb: C,
    other: Seq<char>,
)
    ensures
        before.insert(topic, cb).dom().contains(topic),
        before.insert(topic, cb)[topic] == cb,
        other != topic ==> (before.insert(topic, cb).dom().contains(other)
            <==> before.dom().contains(other)),
        other != topic && before.dom().contains(other) ==> before.insert(topic, cb)[other]
            == before[other],
{
}

/// Registering a second callback for the same topic replaces the first.
pub proof fn lemma_register_twice_keeps_last<C>(
    before: Map<Seq<char>, C>,
    topic: Seq<char>,
    first: C,
    second: C,
)
    ensures
        before.insert(topic, first).insert(topic, second) == before.insert(topic, second),
{
    assert(before.insert(topic, first).insert(topic, second) =~= before.insert(topic, second));
}

/// A named service and the callbacks it has registered, keyed by topic name.
pub struct Service<C> {
    name: String,
    sub_callbacks: Vec<(String, C)>,
}

impl<C> Service<C> {
    #[verifier::type_invariant]
    closed spec fn topics_distinct(&self) -> bool {
        distinct_topics(self.sub_callbacks@)
    }

    /// The service's name.
    pub closed spec fn name_view(&self) -> Seq<char> {
        self.name@
    }

    /// The registered entries, in registration order of their topics.
    pub closed spec fn entries(&self) -> Seq<(String, C)> {
        self.sub_callbacks@
    }

    /// The callback registered for each topic.
    pub open spec fn callbacks(&self) -> Map<Seq<char>, C> {
        entries_map(self.entries())
    }

    /// A service called `name` with no callback yet.
    pub fn new(name: String) -> (service: Self)
        ensures
            service.name_view() == name@,
            service.entries().len() == 0,
            service.callbacks() == Map::<Seq<char>, C>::empty(),
    {
        let service = Service { name, sub_callbacks: Vec::new() };
        assert(service.callbacks() =~= Map::<Seq<char>, C>::empty());
        service
    }

    /// The service's name.
    pub fn name(&self) -> (name: &String)
        ensures
            name@ == self.name_view(),
    {
        &self.name
    }

    /// How many topics have a callback.
    pub fn len(&self) -> (n: usize)
        ensures
            n == self.entries().len(),
            n == self.callbacks().dom().len(),
            self.callbacks().dom().finite(),
    {
        proof {
            use_type_invariant(self);
            lemma_entries_map_size(self.sub_callbacks@);
        }
        self.sub_callbacks.len()
    }

    /// The position of the entry registered under `topic`, if any.
    fn position_of(&self, topic: &String) -> (pos: Option<usize>)
        ensures
            pos is None <==> !holds_topic(self.entries(), topic@),
            pos matches Some(p) ==> p < self.entries().len() && self.entries()[p as int].0@
                == topic@,
    {
        let mut i: usize = 0;
        while i < self.sub_callbacks.len()
            invariant
                i <= self.sub_callbacks@.len(),
                forall|j: int| 0 <= j < i ==> #[trigger] self.sub_callbacks@[j].0@ != topic@,
            decreases self.sub_callbacks@.len() - i,
        {
            if self.sub_callbacks[i].0 == *topic {
                return Some(i);
            }
            i = i + 1;
        }
        None
    }

    /// Registers `cb` as the callback for `topic`, replacing the one that
    /// topic had; the other topics keep theirs.
    pub fn add_sub_callback(&mut self, topic: String, cb: C)
        ensures
            final(self).name_view() == old(self).name_view(),
            final(self).callbacks() == old(self).callbacks().insert(topic@, cb),
            final(self).entries().len() == old(self).entries().len() + (if old(
                self,
            ).callbacks().dom().contains(topic@) {
                0int
            } else {
                1int
            }),
    {
        proof {
            use_type_invariant(&*self);
        }
        let ghost before = self.sub_callbacks@;
        let ghost key = topic@;
        let pos = self.position_of(&topic);
        let mut entries: Vec<(String, C)> = Vec::new();
        std::mem::swap(&mut entries, &mut self.sub_callbacks);
        match pos {
            Some(p) => {
                entries.remove(p);
                entries.insert(p, (topic, cb));
                proof {
                    lemma_write_entry(before, entries@, p as int, key, cb);
                }
            },
            None => {
                entries.push((topic, cb));
                proof {
                    lemma_write_entry(before, entries@, before.len() as int, key, cb);
                }
            },
        }
        self.sub_callbacks = entries;
    }

    /// The callback registered for `topic`, if there is one.
    pub fn callback_for(&self, topic: &String) -> (cb: Option<&C>)
        ensures
            cb is Some <==> self.callbacks().dom().contains(topic@),
            cb matches Some(c) ==> *c == self.callbacks()[topic@],
    {
        proof {
            use_type_invariant(self);
        }
        match self.position_of(topic) {
            Some(p) => {
                proof {
                    lemma_entry_in_map(self.sub_callbacks@, p as int);
                }
                Some(&self.sub_callbacks[p].1)
            },
            None => None,
        }
    }

    /// The subscription filters the service sets: one per registered topic,
    /// the topic's bytes.
    pub fn subscriptions(&self) -> (filters: Vec<Vec<u8>>)
        ensures
            filters@.len() == self.entries().len(),
            forall|i: int|
                0 <= i < filters@.len() ==> #[trigger] filters@[i]@ == topic_bytes(
                    self.entries()[i].0@,
                ),
            forall|topic: Seq<char>|
                #[trigger] self.callbacks().dom().contains(topic) <==> exists|i: int|
                    0 <= i < filters@.len() && #[trigger] filters@[i]@ == topic_bytes(topic),
            forall|i: int, j: int|
                0 <= i < filters@.len() && 0 <= j < filters@.len() && i != j ==> #[trigger] filters@[i]@
                    != #[trigger] filters@[j]@,
    {
        proof {
            use_type_invariant(self);
        }
        let mut filters: Vec<Vec<u8>> = Vec::new();
        let mut i: usize = 0;
        while i < self.sub_callbacks.len()
            invariant
                i <= self.sub_callbacks@.len(),
                filters@.len() == i,
                forall|j: int|
                    0 <= j < i ==> #[trigger] filters@[j]@ == topic_bytes(
                        self.sub_callbacks@[j].0@,
                    ),
            decreases self.sub_callbacks@.len() - i,
        {
            filters.push(topic_frame(self.sub_callbacks[i].0.as_str()));
            i = i + 1;
        }
        proof {
            assert forall|topic: Seq<char>|
                #[trigger] self.callbacks().dom().contains(topic) <==> exists|i: int|
                    0 <= i < filters@.len() && #[trigger] filters@[i]@ == topic_bytes(topic) by {
                if self.callbacks().dom().contains(topic) {
                    let w = choose|w: int|
                        0 <= w < self.sub_callbacks@.len() && #[trigger] self.sub_callbacks@[w].0@
                            == topic;
                    assert(filters@[w]@ == topic_bytes(topic));
                }
                if exists|i: int| 0 <= i < filters@.len() && #[trigger] filters@[i]@ == topic_bytes(topic) {
                    let w = choose|w: int|
                        0 <= w < filters@.len() && #[trigger] filters@[w]@ == topic_bytes(topic);
                    let other = self.sub_callbacks@[w].0@;
                    lemma_topic_round_trip(topic);
                    lemma_topic_round_trip(other);
                    assert(other == topic);
                    assert(holds_topic(self.sub_callbacks@, topic));
                }
            }
            assert forall|i: int, j: int|
                0 <= i < filters@.len() && 0 <= j < filters@.len() && i != j implies #[trigger] filters@[i]@
                != #[trigger] filters@[j]@ by {
                let a = self.sub_callbacks@[i].0@;
                let b = self.sub_callbacks@[j].0@;
                assert(a != b);
                lemma_topic_round_trip(a);
                lemma_topic_round_trip(b);
            }
        }
        filters
    }
}

/// A copy of a service: the same name and topics, each callback cloned.
impl<C: Clone> Clone for Service<C> {
    fn clone(&self) -> (copy: Self)
        ensures
            copy.name_view() == self.name_view(),
            copy.entries().len() == self.entries().len(),
            copy.callbacks().dom() == self.callbacks().dom(),
            forall|i: int|
                0 <= i < self.entries().len() ==> #[trigger] copy.entries()[i].0@
                    == self.entries()[i].0@ && cloned(self.entries()[i].1, copy.entries()[i].1),
    {
        proof {
            use_type_invariant(self);
        }
        let mut entries: Vec<(String, C)> = Vec::new();
        let mut i: usize = 0;
        while i < self.sub_callbacks.len()
            invariant
                i <= self.sub_callbacks@.len(),
                entries@.len() == i,
                distinct_topics(self.sub_callbacks@),
                forall|j: int|
                    0 <= j < i ==> #[trigger] entries@[j].0@ == self.sub_callbacks@[j].0@ && cloned(
                        self.sub_callbacks@[j].1,
                        entries@[j].1,
                    ),
            decreases self.sub_callbacks@.len() - i,
        {
            let topic = self.sub_callbacks[i].0.clone();
            let cb = self.sub_callbacks[i].1.clone();
            entries.push((topic, cb));
            i = i + 1;
        }
        proof {
            assert(distinct_topics(entries@)) by {
                assert forall|a: int, b: int|
                    0 <= a < entries@.len() && 0 <= b < entries@.len() && a != b implies #[trigger] entries@[a].0@
                    != #[trigger] entries@[b].0@ by {
                    assert(self.sub_callbacks@[a].0@ != self.sub_callbacks@[b].0@);
                }
            }
            assert(entries_map(entries@).dom() =~= entries_map(self.sub_callbacks@).dom()) by {
                assert forall|k: Seq<char>|
                    #[trigger] holds_topic(entries@, k) <==> holds_topic(self.sub_callbacks@, k) by {
                    if holds_topic(entries@, k) {
                        let w = choose|w: int| 0 <= w < entries@.len() && #[trigger] entries@[w].0@ == k;
                        assert(self.sub_callbacks@[w].0@ == k);
                    }
                    if holds_topic(self.sub_callbacks@, k) {
                        let w = choose|w: int|
                            0 <= w < self.sub_callbacks@.len() && #[trigger] self.sub_callbacks@[w].0@ == k;
                        assert(entries@[w].0@ == k);
                    }
                }
            }
        }
        Service { name: self.name.clone(), sub_callbacks: entries }
    }
}

} // verus!
