//! Collapsing concurrent requests for one coordinate onto one resolve.
//!
//! The resolve is detached from the request that triggered it. That detail is
//! the difference between collapsing working and collapsing evaporating under
//! load: a client that gives up mid-fetch cancels its handler, and with an
//! inline fetch that would abandon the upstream call and let the next waiter
//! start another. Detached, the work completes and populates the cache even if
//! every caller has walked away.
use vstd::hash_map::StringHashMap;
use vstd::prelude::*;

verus! {

/// Coordinates currently being resolved, by their keys, and how to hear the
/// answer.
#[verifier::reject_recursive_types(T)]
pub struct Inflight<T> {
    flying: StringHashMap<T>,
}

impl<T> View for Inflight<T> {
    type V = Map<Seq<char>, T>;

    closed spec fn view(&self) -> Map<Seq<char>, T> {
        self.flying@
    }
}

/// What becomes of a request for a key.
pub enum Arrival<C, T> {
    /// It is answered from the cache after all.
    Cached(C),
    /// It waits on a resolve already in flight.
    Follow(T),
    /// A resolve is to be started, and it waits on that.
    Lead,
}

/// Whether a request starts a resolve: the answer is not cached, and none is in
/// flight.
pub open spec fn starts(flying: Set<Seq<char>>, key: Seq<char>, cached: bool) -> bool {
    !cached && !flying.contains(key)
}

impl<T> Inflight<T> {
    /// Nothing in flight.
    pub fn new() -> (r: Self)
        ensures
            r@ == Map::<Seq<char>, T>::empty(),
    {
        Inflight { flying: StringHashMap::new() }
    }

    /// Takes a request for a key, with what the cache holds under it at this
    /// moment -- the resolve may have finished since the request missed -- and
    /// the channel to use where a resolve is to be started.
    pub fn arrive<C>(&mut self, key: &str, cached: Option<C>, fresh: T) -> (r: Arrival<C, T>) where
        T: Clone,

        ensures
            r is Lead <==> starts(old(self)@.dom(), key@, cached is Some),
            match r {
                Arrival::Cached(c) => cached == Some(c) && final(self)@ == old(self)@,
                Arrival::Follow(t) => cached is None && old(self)@.contains_key(key@) && cloned(
                    old(self)@[key@],
                    t,
                ) && final(self)@ == old(self)@,
                Arrival::Lead => final(self)@ == old(self)@.insert(key@, fresh),
            },
    {
        if let Some(c) = cached {
            return Arrival::Cached(c);
        }
        if let Some(t) = self.flying.get(key) {
            return Arrival::Follow(t.clone());
        }
        self.flying.insert(key.to_owned(), fresh);
        Arrival::Lead
    }

    /// Takes a key out, with the channel its answer goes to.
    ///
    /// Taken out before the answer is published, so a request arriving after
    /// that starts a fresh resolve rather than waiting on a channel that will
    /// never send again; and taken out however the resolve ends, since a channel
    /// left behind would leave every later request for the key waiting forever.
    pub fn take(&mut self, key: &str) -> (r: Option<T>) where T: Clone
        ensures
            final(self)@ == old(self)@.remove(key@),
            match r {
                Some(t) => old(self)@.contains_key(key@) && cloned(old(self)@[key@], t),
                None => !old(self)@.contains_key(key@),
            },
    {
        let found = match self.flying.get(key) {
            Some(t) => Some(t.clone()),
            None => None,
        };
        self.flying.remove(key);
        found
    }
}

/// Something that happens to what is in flight.
pub enum Event {
    /// A request for a key arrives, and finds the answer cached or not.
    Arrived(Seq<char>, bool),
    /// A key is taken out.
    Ended(Seq<char>),
}

/// The keys in flight after a run of events.
pub open spec fn flying_after(events: Seq<Event>) -> Set<Seq<char>>
    decreases events.len(),
{
    if events.len() == 0 {
        Set::empty()
    } else {
        let before = flying_after(events.drop_last());
        match events.last() {
            Event::Arrived(key, cached) => if starts(before, key, cached) {
                before.insert(key)
            } else {
                before
            },
            Event::Ended(key) => before.remove(key),
        }
    }
}

/// How many resolves of a key a run of events starts.
pub open spec fn started(events: Seq<Event>, key: Seq<char>) -> nat
    decreases events.len(),
{
    if events.len() == 0 {
        0
    } else {
        let before = started(events.drop_last(), key);
        match events.last() {
            Event::Arrived(k, cached) => if k == key && starts(
                flying_after(events.drop_last()),
                k,
                cached,
            ) {
                before + 1
            } else {
                before
            },
            Event::Ended(_) => before,
        }
    }
}

/// How many times a run of events takes a key out.
pub open spec fn ended(events: Seq<Event>, key: Seq<char>) -> nat
    decreases events.len(),
{
    if events.len() == 0 {
        0
    } else {
        ended(events.drop_last(), key) + if events.last() == Event::Ended(key) {
            1nat
        } else {
            0
        }
    }
}

/// Whatever happens, no resolve of a key is started while one is in flight: at
/// most one more has been started than has ended.
pub proof fn law_one_resolve_at_a_time(events: Seq<Event>, key: Seq<char>)
    ensures
        started(events, key) <= ended(events, key) + if flying_after(events).contains(key) {
            1nat
        } else {
            0
        },
    decreases events.len(),
{
    if events.len() > 0 {
        law_one_resolve_at_a_time(events.drop_last(), key);
    }
}

/// However many requests for a key find nothing cached before its resolve ends,
/// they share exactly one.
pub proof fn law_concurrent_requests_share_one_resolve(events: Seq<Event>, key: Seq<char>, i: int)
    requires
        0 <= i < events.len(),
        events[i] == Event::Arrived(key, false),
        forall|j: int| 0 <= j < events.len() ==> #[trigger] events[j] != Event::Ended(key),
    ensures
        started(events, key) == 1,
        flying_after(events).contains(key),
    decreases events.len(),
{
    let init = events.drop_last();
    assert forall|j: int| 0 <= j < init.len() implies #[trigger] init[j] != Event::Ended(key) by {
        assert(init[j] == events[j]);
    }
    assert(events[events.len() - 1] == events.last());
    law_one_resolve_at_a_time(events, key);
    lemma_none_ended(events, key);
    lemma_none_ended(init, key);
    if i < init.len() {
        law_concurrent_requests_share_one_resolve(init, key, i);
    } else {
        law_one_resolve_at_a_time(init, key);
        lemma_flying_was_started(init, key);
    }
}

proof fn lemma_none_ended(events: Seq<Event>, key: Seq<char>)
    requires
        forall|j: int| 0 <= j < events.len() ==> #[trigger] events[j] != Event::Ended(key),
    ensures
        ended(events, key) == 0,
    decreases events.len(),
{
    if events.len() > 0 {
        let init = events.drop_last();
        assert forall|j: int| 0 <= j < init.len() implies #[trigger] init[j] != Event::Ended(key) by {
            assert(init[j] == events[j]);
        }
        lemma_none_ended(init, key);
        assert(events[events.len() - 1] == events.last());
    }
}

proof fn lemma_flying_was_started(events: Seq<Event>, key: Seq<char>)
    ensures
        flying_after(events).contains(key) ==> started(events, key) >= 1,
    decreases events.len(),
{
    if events.len() > 0 {
        lemma_flying_was_started(events.drop_last(), key);
    }
}

/// A request that finds the answer cached starts nothing, and neither does one
/// for a key in flight; one that finds neither does. Requests for one key leave
/// every other as it was.
pub proof fn law_when_a_resolve_starts(
    events: Seq<Event>,
    key: Seq<char>,
    cached: bool,
    other: Seq<char>,
)
    requires
        other != key,
    ensures
        ({
            let more = events.push(Event::Arrived(key, cached));
            let before = started(events, key);
            &&& cached ==> started(more, key) == before && flying_after(more) == flying_after(events)
            &&& flying_after(events).contains(key) ==> started(more, key) == before
            &&& !cached && !flying_after(events).contains(key) ==> started(more, key) == before + 1
            &&& !cached ==> flying_after(more).contains(key)
            &&& started(more, other) == started(events, other)
            &&& flying_after(more).contains(other) <==> flying_after(events).contains(other)
        }),
{
    let more = events.push(Event::Arrived(key, cached));
    assert(more.drop_last() =~= events);
}

/// Once a key is taken out, the next request that finds nothing cached starts a
/// fresh resolve.
pub proof fn law_a_request_after_the_end_starts_afresh(events: Seq<Event>, key: Seq<char>)
    ensures
        started(events.push(Event::Ended(key)).push(Event::Arrived(key, false)), key) == started(
            events,
            key,
        ) + 1,
{
    let over = events.push(Event::Ended(key));
    assert(over.drop_last() =~= events);
    assert(!flying_after(over).contains(key));
    assert(started(over, key) == started(events, key));
    assert(over.push(Event::Arrived(key, false)).drop_last() =~= over);
}

} // verus!
