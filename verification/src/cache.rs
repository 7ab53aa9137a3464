//! A bounded TTL map: the memory tier.
//!
//! The TTL depends on the answer. ClearlyDefined never 404s: an unharvested
//! coordinate returns 200 with an empty definition, indistinguishable from
//! "this package genuinely has no licence" unless you look at whether any tools
//! ran. Caching that for a month would freeze "no data" over a package that
//! gets harvested tomorrow, so the caller picks the TTL per entry.
//!
//! Times are nanoseconds since the cache was made.
use std::time::{Duration, Instant};
use vstd::hash_map::StringHashMap;
use vstd::prelude::*;

use crate::time::{nanos_of, span_of, LONGEST};
use crate::time::{read_now, since, span_nanos};

verus! {

struct Entry<V> {
    key: String,
    value: V,
    expires_at: u128,
}

/// A bounded map from keys to values that expire.
///
/// The slots stand in the order the entries were stored. Storing a key again
/// leaves an empty slot behind; the slots are packed when more than half of
/// them are empty.
pub struct Cache<V> {
    slots: Vec<Option<Entry<V>>>,
    index: StringHashMap<usize>,
    count: usize,
    capacity: usize,
    origin: Instant,
}

/// An entry of a [`Cache`].
pub struct Held<V> {
    pub key: Seq<char>,
    pub value: V,
    pub expires_at: u128,
}

/// Tells the entries that are still alive at a time.
pub open spec fn alive_at<V>(now: u128) -> spec_fn(Held<V>) -> bool {
    |e: Held<V>| e.expires_at > now
}

/// Tells the entries of other keys.
pub open spec fn keyed_other_than<V>(key: Seq<char>) -> spec_fn(Held<V>) -> bool {
    |e: Held<V>| e.key != key
}

/// The entry of a key.
pub open spec fn entry_of<V>(held: Seq<Held<V>>, key: Seq<char>) -> Option<Held<V>>
    decreases held.len(),
{
    if held.len() == 0 {
        None
    } else if held.last().key == key {
        Some(held.last())
    } else {
        entry_of(held.drop_last(), key)
    }
}

/// The entry of a key, if it is still alive.
pub open spec fn hit<V>(held: Seq<Held<V>>, key: Seq<char>, now: u128) -> Option<Held<V>> {
    match entry_of(held, key) {
        Some(e) => if e.expires_at > now {
            Some(e)
        } else {
            None
        },
        None => None,
    }
}

/// No key has two entries.
pub open spec fn one_per_key<V>(held: Seq<Held<V>>) -> bool {
    forall|i: int, j: int|
        0 <= i < j < held.len() ==> #[trigger] held[i].key != #[trigger] held[j].key
}

/// What is left of the entries when room has to be made: the expired ones go,
/// and if that is not enough, the oldest tenth of the rest.
pub open spec fn with_room<V>(held: Seq<Held<V>>, capacity: nat, now: u128) -> Seq<Held<V>> {
    if held.len() < capacity {
        held
    } else {
        let live = held.filter(alive_at(now));
        if live.len() < capacity {
            live
        } else if live.len() < capacity / 10 + 1 {
            Seq::empty()
        } else {
            live.skip(capacity as int / 10 + 1)
        }
    }
}

/// The entries after one is stored: it is the newest, and takes the place of
/// any other under its key.
pub open spec fn stored<V>(
    held: Seq<Held<V>>,
    capacity: nat,
    key: Seq<char>,
    value: V,
    expires_at: u128,
    now: u128,
) -> Seq<Held<V>> {
    with_room(held, capacity, now).filter(keyed_other_than(key)).push(
        Held { key, value, expires_at },
    )
}

/// How many entries a cache of a capacity holds at most: the capacity, but for
/// a capacity of nothing, which still holds what was stored last.
pub open spec fn room(capacity: nat) -> nat {
    if capacity == 0 {
        1
    } else {
        capacity
    }
}

spec fn shown<V>(e: Entry<V>) -> Held<V> {
    Held { key: e.key@, value: e.value, expires_at: e.expires_at }
}

spec fn present<V>(slots: Seq<Option<Entry<V>>>) -> Seq<Held<V>>
    decreases slots.len(),
{
    if slots.len() == 0 {
        Seq::empty()
    } else {
        match slots.last() {
            Some(e) => present(slots.drop_last()).push(shown(e)),
            None => present(slots.drop_last()),
        }
    }
}

/// The index names exactly the filled slots, each under its key.
spec fn indexed<V>(slots: Seq<Option<Entry<V>>>, index: Map<Seq<char>, usize>) -> bool {
    &&& forall|i: int|
        0 <= i < slots.len() && (#[trigger] slots[i]) is Some ==> index.contains_key(
            slots[i]->0.key@,
        ) && index[slots[i]->0.key@] == i
    &&& forall|k: Seq<char>| #[trigger]
        index.contains_key(k) ==> index[k] < slots.len() && slots[index[k] as int] is Some
            && slots[index[k] as int]->0.key@ == k
}

/// The entries that outlive a time, or all of them where none is given.
spec fn outliving<V>(held: Seq<Held<V>>, time: Option<u128>) -> Seq<Held<V>> {
    match time {
        Some(now) => held.filter(alive_at(now)),
        None => held,
    }
}

impl<V> View for Cache<V> {
    type V = Seq<Held<V>>;

    /// The entries, from the oldest to the newest.
    closed spec fn view(&self) -> Seq<Held<V>> {
        present(self.slots@)
    }
}

proof fn lemma_present_len<V>(slots: Seq<Option<Entry<V>>>)
    ensures
        present(slots).len() <= slots.len(),
    decreases slots.len(),
{
    if slots.len() > 0 {
        lemma_present_len(slots.drop_last());
    }
}

/// A key that no slot holds has no entry.
proof fn lemma_absent<V>(slots: Seq<Option<Entry<V>>>, key: Seq<char>)
    requires
        forall|i: int| 0 <= i < slots.len() && (#[trigger] slots[i]) is Some ==> slots[i]->0.key@ != key,
    ensures
        entry_of(present(slots), key) is None,
        present(slots).filter(keyed_other_than(key)) == present(slots),
    decreases slots.len(),
{
    reveal(Seq::filter);
    if slots.len() > 0 {
        let init = slots.drop_last();
        assert forall|i: int| 0 <= i < init.len() && (#[trigger] init[i]) is Some implies init[i]->0.key@
            != key by {
            assert(init[i] == slots[i]);
        }
        lemma_absent(init, key);
        assert(slots[slots.len() - 1] == slots.last());
        if slots.last() is Some {
            assert(present(slots).drop_last() =~= present(init));
        }
    }
}

/// A key that one slot holds has that slot's entry, and emptying the slot takes
/// it away and nothing else.
proof fn lemma_present_at<V>(slots: Seq<Option<Entry<V>>>, at: int)
    requires
        0 <= at < slots.len(),
        slots[at] is Some,
        forall|i: int|
            0 <= i < slots.len() && i != at && (#[trigger] slots[i]) is Some ==> slots[i]->0.key@
                != slots[at]->0.key@,
    ensures
        entry_of(present(slots), slots[at]->0.key@) == Some(shown(slots[at]->0)),
        present(slots.update(at, None)) == present(slots).filter(
            keyed_other_than(slots[at]->0.key@),
        ),
        present(slots.update(at, None)).len() == present(slots).len() - 1,
    decreases slots.len(),
{
    reveal(Seq::filter);
    let key = slots[at]->0.key@;
    let init = slots.drop_last();
    if at == slots.len() - 1 {
        assert forall|i: int| 0 <= i < init.len() && (#[trigger] init[i]) is Some implies init[i]->0.key@
            != key by {
            assert(init[i] == slots[i]);
        }
        lemma_absent(init, key);
        assert(slots.update(at, None).drop_last() =~= init);
        assert(present(slots).drop_last() =~= present(init));
    } else {
        assert forall|i: int|
            0 <= i < init.len() && i != at && (#[trigger] init[i]) is Some implies init[i]->0.key@
            != init[at]->0.key@ by {
            assert(init[i] == slots[i]);
        }
        lemma_present_at(init, at);
        assert(slots.update(at, None).drop_last() =~= init.update(at, None));
        assert(slots[slots.len() - 1] == slots.last());
        if slots.last() is Some {
            assert(present(slots).drop_last() =~= present(init));
            assert(present(slots.update(at, None)) =~= present(slots).filter(keyed_other_than(key)));
        }
    }
}

proof fn lemma_present_push<V>(slots: Seq<Option<Entry<V>>>, e: Entry<V>)
    ensures
        present(slots.push(Some(e))) == present(slots).push(shown(e)),
{
    assert(slots.push(Some(e)).drop_last() =~= slots);
}

impl<V> Cache<V> {
    /// The number of entries held before room is made.
    pub closed spec fn limit(&self) -> nat {
        self.capacity as nat
    }

    /// The reading of the clock that times are counted from.
    pub closed spec fn clock(&self) -> Instant {
        self.origin
    }

    pub closed spec fn wf(&self) -> bool {
        &&& indexed(self.slots@, self.index@)
        &&& self.count == present(self.slots@).len()
        &&& self.count <= room(self.capacity as nat)
    }

    pub fn new(capacity: usize) -> (r: Self)
        ensures
            r.wf(),
            r@ == Seq::<Held<V>>::empty(),
            r.limit() == capacity,
            read_now(r.clock()),
    {
        Cache {
            slots: Vec::new(),
            index: StringHashMap::new(),
            count: 0,
            capacity,
            origin: Instant::now(),
        }
    }

    /// Packs the slots, keeping what outlives `time` but for the `skip` oldest
    /// of that.
    fn rebuild(&mut self, time: Option<u128>, skip: usize)
        requires
            old(self).wf(),
        ensures
            final(self).wf(),
            final(self).limit() == old(self).limit(),
            final(self).clock() == old(self).clock(),
            ({
                let kept = outliving(old(self)@, time);
                final(self)@ == if skip <= kept.len() {
                    kept.skip(skip as int)
                } else {
                    Seq::empty()
                }
            }),
    {
        let ghost was = self.slots@;
        let mut from: Vec<Option<Entry<V>>> = Vec::new();
        std::mem::swap(&mut from, &mut self.slots);
        let mut slots: Vec<Option<Entry<V>>> = Vec::new();
        let mut index: StringHashMap<usize> = StringHashMap::new();
        let mut skipped: usize = 0;
        let mut i: usize = 0;
        proof {
            reveal(Seq::filter);
        }
        while i < from.len()
            invariant
                i <= from@.len(),
                from@.len() == was.len(),
                forall|j: int| i <= j < was.len() ==> from@[j] == was[j],
                indexed(was, self.index@),
                indexed(slots@, index@),
                forall|k: Seq<char>| #[trigger]
                    index@.contains_key(k) ==> self.index@.contains_key(k) && self.index@[k] < i,
                skipped <= skip,
                present(slots@).len() == slots@.len(),
                slots@.len() <= i,
                ({
                    let kept = outliving(present(was.take(i as int)), time);
                    &&& skipped == if skip <= kept.len() {
                        skip as int
                    } else {
                        kept.len() as int
                    }
                    &&& present(slots@) == kept.skip(skipped as int)
                }),
            decreases from@.len() - i,
        {
            let ghost seen = present(was.take(i as int));
            let ghost next = present(was.take(i + 1));
            let ghost kept = outliving(seen, time);
            proof {
                reveal(Seq::filter);
                assert(was.take(i + 1).drop_last() =~= was.take(i as int));
                assert(was.take(i + 1).last() == was[i as int]);
            }
            let slot = from[i].take();
            match slot {
                Some(entry) => {
                    assert(next.drop_last() =~= seen);
                    assert(next.last() == shown(entry));
                    let alive = match time {
                        Some(now) => entry.expires_at > now,
                        None => true,
                    };
                    if alive {
                        assert(outliving(next, time) =~= kept.push(shown(entry)));
                        if skipped < skip {
                            skipped += 1;
                            assert(outliving(next, time).skip(skipped as int) =~= Seq::empty());
                        } else {
                            let ghost old_index = index@;
                            let ghost old_slots = slots@;
                            assert(was[i as int] == Some(entry));
                            assert(!index@.contains_key(entry.key@));
                            index.insert(entry.key.clone(), slots.len());
                            proof {
                                lemma_present_push(slots@, entry);
                            }
                            slots.push(Some(entry));
                            assert(outliving(next, time).skip(skipped as int) =~= kept.skip(
                                skipped as int,
                            ).push(shown(entry)));
                            assert(indexed(slots@, index@)) by {
                                assert forall|j: int|
                                    0 <= j < slots@.len() && (#[trigger] slots@[j]) is Some implies index@.contains_key(
                                slots@[j]->0.key@) && index@[slots@[j]->0.key@] == j by {
                                    if j < old_slots.len() {
                                        assert(old_slots[j] == slots@[j]);
                                    }
                                }
                                assert forall|k: Seq<char>| #[trigger]
                                    index@.contains_key(k) implies index@[k] < slots@.len()
                                    && slots@[index@[k] as int] is Some
                                    && slots@[index@[k] as int]->0.key@ == k by {
                                    if k != entry.key@ {
                                        assert(old_index.contains_key(k));
                                    }
                                }
                            }
                        }
                    } else {
                        assert(outliving(next, time) =~= kept);
                    }
                },
                None => {
                    assert(next =~= seen);
                },
            }
            i += 1;
        }
        assert(was.take(i as int) =~= was);
        proof {
            present(was).lemma_filter_len(alive_at(time.unwrap_or(0)));
        }
        self.count = slots.len();
        self.slots = slots;
        self.index = index;
    }

    /// The value of a key and what is left of its life, at a time.
    pub fn get_at(&self, key: &str, now: u128) -> (r: Option<(V, u128)>) where V: Clone
        requires
            self.wf(),
        ensures
            match hit(self@, key@, now) {
                Some(e) => r matches Some((value, left)) && cloned(e.value, value) && left
                    == e.expires_at - now,
                None => r is None,
            },
    {
        let at: usize = match self.index.get(key) {
            Some(i) => *i,
            None => {
                proof {
                    lemma_absent(self.slots@, key@);
                }
                return None;
            },
        };
        proof {
            lemma_present_at(self.slots@, at as int);
        }
        match &self.slots[at] {
            Some(e) => if e.expires_at <= now {
                None
            } else {
                Some((e.value.clone(), e.expires_at - now))
            },
            None => None,
        }
    }

    /// The value and the TTL it has left.
    ///
    /// The remaining lifetime is returned, not just the value, because it ends
    /// up in `Cache-Control`: answering a hit with a fresh full TTL would let a
    /// CDN hold an entry for up to twice as long as it is meant to live.
    pub fn get(&self, key: &str) -> (r: Option<(V, Duration)>) where V: Clone
        requires
            self.wf(),
        ensures
            exists|past: Duration| #[trigger]
                since(self.clock(), past) && span_nanos(past) <= LONGEST && match hit(
                    self@,
                    key@,
                    span_nanos(past) as u128,
                ) {
                    Some(e) => r matches Some((value, left)) && cloned(e.value, value)
                        && span_nanos(left) == if e.expires_at - span_nanos(past) <= LONGEST {
                        e.expires_at - span_nanos(past)
                    } else {
                        LONGEST as int
                    },
                    None => r is None,
                },
    {
        let past = self.origin.elapsed();
        assert(since(self.clock(), past));
        match self.get_at(key, nanos_of(past)) {
            Some((value, left)) => Some((value, span_of(left))),
            None => None,
        }
    }

    /// Stores a value at a time, to live for `ttl` nanoseconds from then.
    pub fn insert_at(&mut self, key: String, value: V, ttl: u128, now: u128)
        requires
            old(self).wf(),
            now + ttl <= u128::MAX,
        ensures
            final(self).wf(),
            final(self).limit() == old(self).limit(),
            final(self).clock() == old(self).clock(),
            final(self)@ == stored(
                old(self)@,
                old(self).limit(),
                key@,
                value,
                (now + ttl) as u128,
                now,
            ),
    {
        if self.count >= self.capacity {
            self.rebuild(Some(now), 0);
            assert(self@ =~= old(self)@.filter(alive_at(now)));
            if self.count >= self.capacity {
                self.rebuild(None, self.capacity / 10 + 1);
            }
        }
        assert(self@ =~= with_room(old(self)@, old(self).limit(), now));
        let ghost roomy = self.slots@;
        let found: Option<usize> = match self.index.get(key.as_str()) {
            Some(i) => Some(*i),
            None => None,
        };
        match found {
            Some(at) => {
                proof {
                    lemma_present_at(self.slots@, at as int);
                }
                self.slots.set(at, None);
                self.count -= 1;
            },
            None => {
                proof {
                    lemma_absent(self.slots@, key@);
                }
            },
        }
        proof {
            lemma_stored_len(
                old(self)@,
                old(self).limit(),
                key@,
                value,
                (now + ttl) as u128,
                now,
            );
        }
        let ghost others = self.slots@;
        assert(present(others) == present(roomy).filter(keyed_other_than(key@)));
        let ghost old_index = self.index@;
        let entry = Entry { key: key.clone(), value, expires_at: now + ttl };
        proof {
            lemma_present_push(others, entry);
            lemma_present_len(others);
        }
        self.index.insert(key, self.slots.len());
        self.slots.push(Some(entry));
        self.count += 1;
        assert(indexed(self.slots@, self.index@)) by {
            assert forall|j: int|
                0 <= j < self.slots@.len() && (#[trigger] self.slots@[j]) is Some implies self.index@.contains_key(
            self.slots@[j]->0.key@) && self.index@[self.slots@[j]->0.key@] == j by {
                if j < others.len() {
                    assert(others[j] == self.slots@[j]);
                    assert(roomy[j] == self.slots@[j]);
                }
            }
            assert forall|k: Seq<char>| #[trigger]
                self.index@.contains_key(k) implies self.index@[k] < self.slots@.len()
                && self.slots@[self.index@[k] as int] is Some
                && self.slots@[self.index@[k] as int]->0.key@ == k by {
                if k != entry.key@ {
                    assert(old_index.contains_key(k));
                }
            }
        }
        if self.slots.len() - self.count > self.count {
            let ghost whole = self@;
            self.rebuild(None, 0);
            assert(whole.skip(0) =~= whole);
        }
    }

    /// Stores a value, to live for `ttl` from now.
    pub fn insert(&mut self, key: String, value: V, ttl: Duration)
        requires
            old(self).wf(),
        ensures
            final(self).wf(),
            final(self).limit() == old(self).limit(),
            final(self).clock() == old(self).clock(),
            exists|past: Duration| #[trigger]
                since(old(self).clock(), past) && span_nanos(past) <= LONGEST && final(self)@
                    == stored(
                    old(self)@,
                    old(self).limit(),
                    key@,
                    value,
                    (span_nanos(past) + span_nanos(ttl)) as u128,
                    span_nanos(past) as u128,
                ),
    {
        let past = self.origin.elapsed();
        assert(since(old(self).clock(), past));
        self.insert_at(key, value, nanos_of(ttl), nanos_of(past));
    }

    pub fn len(&self) -> (r: usize)
        requires
            self.wf(),
        ensures
            r == self@.len(),
    {
        self.count
    }
}

/// No key of a cache has two entries.
pub proof fn law_one_entry_per_key<V>(cache: Cache<V>)
    requires
        cache.wf(),
    ensures
        one_per_key(cache@),
{
    lemma_present_keys(cache.slots@, cache.index@);
}

proof fn lemma_present_keys<V>(slots: Seq<Option<Entry<V>>>, index: Map<Seq<char>, usize>)
    requires
        forall|i: int|
            0 <= i < slots.len() && (#[trigger] slots[i]) is Some ==> index.contains_key(
                slots[i]->0.key@,
            ) && index[slots[i]->0.key@] == i,
    ensures
        one_per_key(present(slots)),
        forall|j: int|
            0 <= j < present(slots).len() ==> index.contains_key(#[trigger] present(slots)[j].key)
                && index[present(slots)[j].key] < slots.len(),
    decreases slots.len(),
{
    if slots.len() > 0 {
        let init = slots.drop_last();
        assert forall|i: int| 0 <= i < init.len() && (#[trigger] init[i]) is Some implies index.contains_key(
        init[i]->0.key@) && index[init[i]->0.key@] == i by {
            assert(init[i] == slots[i]);
        }
        lemma_present_keys(init, index);
        assert(slots[slots.len() - 1] == slots.last());
        let p = present(slots);
        assert forall|i: int, j: int| 0 <= i < j < p.len() implies #[trigger] p[i].key
            != #[trigger] p[j].key by {
            assert(p[i] == present(init)[i]);
            if j < present(init).len() {
                assert(p[j] == present(init)[j]);
            }
        }
        assert forall|j: int| 0 <= j < p.len() implies index.contains_key(#[trigger] p[j].key)
            && index[p[j].key] < slots.len() by {
            if j < present(init).len() {
                assert(p[j] == present(init)[j]);
            }
        }
    }
}

/// A read gives back what was last written under the key, until that expires.
pub proof fn law_a_read_gives_back_the_write<V>(
    held: Seq<Held<V>>,
    capacity: nat,
    key: Seq<char>,
    value: V,
    expires_at: u128,
    now: u128,
    later: u128,
)
    ensures
        hit(stored(held, capacity, key, value, expires_at, now), key, later) == if later
            < expires_at {
            Some(Held { key, value, expires_at })
        } else {
            None
        },
{
}

/// Where there is room, storing one key leaves every other as it was.
pub proof fn law_other_keys_are_untouched<V>(
    held: Seq<Held<V>>,
    capacity: nat,
    key: Seq<char>,
    value: V,
    expires_at: u128,
    now: u128,
    other: Seq<char>,
)
    requires
        held.len() < capacity,
        other != key,
    ensures
        entry_of(stored(held, capacity, key, value, expires_at, now), other) == entry_of(
            held,
            other,
        ),
{
    lemma_entry_of_others(held, key, other);
    let kept = held.filter(keyed_other_than(key));
    assert(stored(held, capacity, key, value, expires_at, now).drop_last() =~= kept);
}

/// Whatever room has to be made, no key ever comes back with anything but what
/// was stored under it.
pub proof fn law_making_room_changes_no_entry<V>(
    held: Seq<Held<V>>,
    capacity: nat,
    key: Seq<char>,
    value: V,
    expires_at: u128,
    now: u128,
    other: Seq<char>,
)
    requires
        one_per_key(held),
        other != key,
    ensures
        ({
            let after = entry_of(stored(held, capacity, key, value, expires_at, now), other);
            after is Some ==> after == entry_of(held, other)
        }),
{
    let roomy = with_room(held, capacity, now);
    let live = held.filter(alive_at(now));
    lemma_entry_of_others(roomy, key, other);
    assert(stored(held, capacity, key, value, expires_at, now).drop_last() =~= roomy.filter(
        keyed_other_than(key),
    ));
    if entry_of(roomy, other) is Some {
        lemma_entry_at(roomy, other);
        let i = choose|i: int|
            0 <= i < roomy.len() && roomy[i].key == other && entry_of(roomy, other) == Some(
                roomy[i],
            );
        if held.len() >= capacity {
            let e = roomy[i];
            assert(live.contains(e)) by {
                if live.len() >= capacity {
                    assert(live[i + capacity as int / 10 + 1] == e);
                }
            }
            held.lemma_filter_contains_rev(alive_at(now), e);
            let j = choose|j: int| 0 <= j < held.len() && held[j] == e;
            lemma_entry_unique(held, j);
        }
    }
}

/// While the entries that are alive leave room, none of them is given up.
pub proof fn law_live_entries_are_kept_while_there_is_room<V>(
    held: Seq<Held<V>>,
    capacity: nat,
    now: u128,
    i: int,
)
    requires
        0 <= i < held.len(),
        held[i].expires_at > now,
        held.filter(alive_at(now)).len() < capacity,
    ensures
        with_room(held, capacity, now).contains(held[i]),
{
    held.lemma_filter_contains(alive_at(now), i);
    assert(held.contains(held[i]));
}

/// When live entries have to go, the oldest go: nothing is given up for room
/// while something older is kept.
pub proof fn law_the_oldest_go_first<V>(held: Seq<Held<V>>, capacity: nat, now: u128, i: int, j: int)
    requires
        held.len() >= capacity,
        0 <= i < j < held.filter(alive_at(now)).len(),
        one_per_key(held),
        with_room(held, capacity, now).contains(held.filter(alive_at(now))[i]),
    ensures
        with_room(held, capacity, now).contains(held.filter(alive_at(now))[j]),
{
    let live = held.filter(alive_at(now));
    let roomy = with_room(held, capacity, now);
    if live.len() < capacity {
        assert(roomy[j] == live[j]);
    } else {
        let n = capacity as int / 10 + 1;
        let k = choose|k: int| 0 <= k < roomy.len() && roomy[k] == live[i];
        assert(roomy[k] == live[k + n]);
        lemma_filter_unique(held, alive_at(now));
        if k + n < i {
            assert(live[k + n].key != live[i].key);
        } else if i < k + n {
            assert(live[i].key != live[k + n].key);
        }
        assert(roomy[j - n] == live[j]);
    }
}

/// A cache never holds more than it has room for.
pub proof fn law_stays_within_capacity<V>(cache: Cache<V>)
    requires
        cache.wf(),
    ensures
        cache@.len() <= room(cache.limit()),
{
}

proof fn lemma_stored_len<V>(
    held: Seq<Held<V>>,
    capacity: nat,
    key: Seq<char>,
    value: V,
    expires_at: u128,
    now: u128,
)
    requires
        held.len() <= room(capacity),
    ensures
        stored(held, capacity, key, value, expires_at, now).len() <= room(capacity),
{
    let roomy = with_room(held, capacity, now);
    held.lemma_filter_len(alive_at(now));
    roomy.lemma_filter_len(keyed_other_than(key));
    assert(roomy.len() < capacity || capacity == 0);
}

/// An entry's life only runs down: where it still answers later, it answered
/// before, with the difference more to live.
pub proof fn law_remaining_life_counts_down<V>(
    held: Seq<Held<V>>,
    key: Seq<char>,
    earlier: u128,
    later: u128,
)
    requires
        earlier <= later,
        hit(held, key, later) is Some,
    ensures
        hit(held, key, earlier) == hit(held, key, later),
        hit(held, key, earlier)->0.expires_at - earlier == (hit(held, key, later)->0.expires_at
            - later) + (later - earlier),
{
}

/// No hit reports more life than the entry was stored with.
pub proof fn law_a_hit_does_not_re_arm<V>(
    held: Seq<Held<V>>,
    capacity: nat,
    key: Seq<char>,
    value: V,
    ttl: u128,
    now: u128,
    later: u128,
)
    requires
        now + ttl <= u128::MAX,
        now <= later,
    ensures
        ({
            let found = hit(
                stored(held, capacity, key, value, (now + ttl) as u128, now),
                key,
                later,
            );
            found is Some ==> found->0.expires_at - later == ttl - (later - now)
        }),
{
}

proof fn lemma_entry_at<V>(held: Seq<Held<V>>, key: Seq<char>)
    requires
        entry_of(held, key) is Some,
    ensures
        exists|i: int|
            0 <= i < held.len() && #[trigger] held[i].key == key && entry_of(held, key) == Some(
                held[i],
            ),
    decreases held.len(),
{
    if held.last().key == key {
        assert(held[held.len() - 1] == held.last());
    } else {
        lemma_entry_at(held.drop_last(), key);
        let i = choose|i: int|
            0 <= i < held.drop_last().len() && #[trigger] held.drop_last()[i].key == key
                && entry_of(held.drop_last(), key) == Some(held.drop_last()[i]);
        assert(held[i] == held.drop_last()[i]);
    }
}

proof fn lemma_entry_unique<V>(held: Seq<Held<V>>, at: int)
    requires
        one_per_key(held),
        0 <= at < held.len(),
    ensures
        entry_of(held, held[at].key) == Some(held[at]),
    decreases held.len(),
{
    if at < held.len() - 1 {
        let init = held.drop_last();
        assert(one_per_key(init)) by {
            assert forall|i: int, j: int| 0 <= i < j < init.len() implies #[trigger] init[i].key
                != #[trigger] init[j].key by {
                assert(held[i] == init[i] && held[j] == init[j]);
            }
        }
        assert(held[at].key != held[held.len() - 1].key);
        lemma_entry_unique(init, at);
    }
}

proof fn lemma_entry_of_others<V>(held: Seq<Held<V>>, key: Seq<char>, other: Seq<char>)
    requires
        other != key,
    ensures
        entry_of(held.filter(keyed_other_than(key)), other) == entry_of(held, other),
    decreases held.len(),
{
    reveal(Seq::filter);
    if held.len() > 0 {
        lemma_entry_of_others(held.drop_last(), key, other);
        let init = held.drop_last().filter(keyed_other_than(key));
        if held.last().key != key {
            assert(held.filter(keyed_other_than(key)).drop_last() =~= init);
        }
    }
}

proof fn lemma_filter_unique<V>(held: Seq<Held<V>>, p: spec_fn(Held<V>) -> bool)
    requires
        one_per_key(held),
    ensures
        one_per_key(held.filter(p)),
    decreases held.len(),
{
    reveal(Seq::filter);
    if held.len() > 0 {
        let init = held.drop_last();
        assert(one_per_key(init)) by {
            assert forall|i: int, j: int| 0 <= i < j < init.len() implies #[trigger] init[i].key
                != #[trigger] init[j].key by {
                assert(held[i] == init[i] && held[j] == init[j]);
            }
        }
        lemma_filter_unique(init, p);
        let kept = init.filter(p);
        let all = held.filter(p);
        assert forall|i: int, j: int| 0 <= i < j < all.len() implies #[trigger] all[i].key
            != #[trigger] all[j].key by {
            assert(all[i] == kept[i]);
            if j < kept.len() {
                assert(all[j] == kept[j]);
            } else {
                assert(kept.contains(kept[i]));
                init.lemma_filter_contains_rev(p, kept[i]);
                let m = choose|m: int| 0 <= m < init.len() && init[m] == kept[i];
                assert(held[m] == kept[i]);
                assert(held[held.len() - 1] == all[j]);
            }
        }
    }
}

/// A lookup gives the value stored under the key and what is left of its life,
/// while any is, and nothing for a key that has no entry.
pub proof fn law_a_lookup_gives_the_live_entry<V: Clone>(
    cache: &Cache<V>,
    key: &str,
    now: u128,
    r: Option<(V, u128)>,
    i: int,
)
    requires
        cache.wf(),
        call_ensures(Cache::<V>::get_at, (cache, key, now), r),
    ensures
        0 <= i < cache@.len() && cache@[i].key == key@ ==> if now < cache@[i].expires_at {
            r matches Some((value, left)) && cloned(cache@[i].value, value) && now + left
                == cache@[i].expires_at
        } else {
            r is None
        },
        (forall|j: int| 0 <= j < cache@.len() ==> (#[trigger] cache@[j]).key != key@) ==> r is None,
{
    law_one_entry_per_key(*cache);
    if 0 <= i < cache@.len() && cache@[i].key == key@ {
        lemma_entry_unique(cache@, i);
    }
    if forall|j: int| 0 <= j < cache@.len() ==> (#[trigger] cache@[j]).key != key@ {
        if entry_of(cache@, key@) is Some {
            lemma_entry_at(cache@, key@);
        }
    }
}

/// Room is made only where there is none: then what has expired goes, and if the
/// rest still leave none, the oldest of them, one more than a tenth of the
/// capacity.
pub proof fn law_how_room_is_made<V>(held: Seq<Held<V>>, capacity: nat, now: u128)
    ensures
        ({
            let live = held.filter(|e: Held<V>| now < e.expires_at);
            let drop = capacity as int / 10 + 1;
            &&& held.len() < capacity ==> with_room(held, capacity, now) == held
            &&& held.len() >= capacity && live.len() < capacity ==> with_room(held, capacity, now)
                == live
            &&& held.len() >= capacity && live.len() >= capacity && live.len() >= drop
                ==> with_room(held, capacity, now) == live.skip(drop)
            &&& held.len() >= capacity && live.len() >= capacity && live.len() < drop
                ==> with_room(held, capacity, now).len() == 0
        }),
{
    assert((|e: Held<V>| now < e.expires_at) =~= alive_at::<V>(now));
}

/// Storing makes room, takes away what stood under the key, and puts the new
/// entry at the end; everything else stays in its order.
pub proof fn law_what_storing_leaves<V>(
    held: Seq<Held<V>>,
    capacity: nat,
    key: Seq<char>,
    value: V,
    expires_at: u128,
    now: u128,
)
    ensures
        stored(held, capacity, key, value, expires_at, now) == with_room(
            held,
            capacity,
            now,
        ).filter(|e: Held<V>| e.key != key).push(Held { key, value, expires_at }),
{
    assert((|e: Held<V>| e.key != key) =~= keyed_other_than::<V>(key));
}

/// A cache holds no more entries than its capacity, but for one of no capacity,
/// which holds no more than the last.
pub proof fn law_a_capacity_is_kept<V>(cache: &Cache<V>, n: usize)
    requires
        cache.wf(),
        call_ensures(Cache::<V>::len, (cache,), n),
    ensures
        n == cache@.len(),
        n <= cache.limit() || n == 1 && cache.limit() == 0,
{
}

} // verus!
