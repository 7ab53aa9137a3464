//! Dropping the soonest-to-expire entries until the table is back under its cap.
//!
//! The cap is the only bound on the disk tier. ClearlyDefined answers 200 for
//! coordinates that do not exist, so without one a caller looping over random
//! names writes a row per request until the volume fills and every later commit
//! fails. Soonest-expiry-first because those entries were going to be re-fetched
//! first anyway.
use vstd::prelude::*;

use crate::persist::sweep::{Row, SWEEP_BATCH};
use crate::text::texts;

verus! {

/// Most entries one sweep will evict for size. A cap this far above normal
/// churn only bites when something is filling the table deliberately, and
/// bounding it keeps the eviction heap small.
pub const EVICT_BATCH: usize = 50_000;

/// How many of `live` entries one sweep evicts under a cap of `cap`. A cap of
/// zero means that there is none.
pub open spec fn over_cap(live: nat, cap: nat) -> nat {
    if cap == 0 || live <= cap {
        0
    } else if live - cap < EVICT_BATCH {
        (live - cap) as nat
    } else {
        EVICT_BATCH as nat
    }
}

/// How many of `live` entries are to be evicted under the cap, or nothing where
/// none are.
pub fn excess(live: u64, cap: u64) -> (r: Option<usize>)
    ensures
        match r {
            Some(n) => n > 0 && n == over_cap(live as nat, cap as nat),
            None => over_cap(live as nat, cap as nat) == 0,
        },
{
    if cap == 0 || live <= cap {
        return None;
    }
    let over: u64 = live - cap;
    if over < EVICT_BATCH as u64 {
        Some(over as usize)
    } else {
        Some(EVICT_BATCH)
    }
}

/// Whether a row has an expiry to be ordered by.
pub open spec fn dated(rows: Seq<Row>, i: int) -> bool {
    0 <= i < rows.len() && rows[i].expiry is Some
}

/// Whether one dated row goes before another: the sooner to expire first, and
/// of those that expire together the one the table has first.
pub open spec fn goes_before(rows: Seq<Row>, i: int, j: int) -> bool {
    let a = rows[i].expiry->0;
    let b = rows[j].expiry->0;
    a < b || (a == b && i < j)
}

/// How many rows have an expiry.
pub open spec fn dated_count(rows: Seq<Row>) -> nat
    decreases rows.len(),
{
    if rows.len() == 0 {
        0
    } else {
        dated_count(rows.drop_last()) + if rows.last().expiry is Some {
            1nat
        } else {
            0
        }
    }
}

pub open spec fn at_most(limit: nat, n: nat) -> nat {
    if n < limit {
        n
    } else {
        limit
    }
}

/// Whether these places hold the `limit` dated rows that expire soonest, or all
/// of them where there are fewer.
pub open spec fn soonest(rows: Seq<Row>, limit: nat, places: Seq<int>) -> bool {
    &&& places.len() == at_most(limit, dated_count(rows))
    &&& places.no_duplicates()
    &&& forall|s: int| 0 <= s < places.len() ==> dated(rows, #[trigger] places[s])
    &&& forall|s: int, p: int|
        0 <= s < places.len() && #[trigger] dated(rows, p) && !places.contains(p) ==> goes_before(
            rows,
            #[trigger] places[s],
            p,
        )
}

/// The keys at these places.
pub open spec fn keys_at(rows: Seq<Row>, places: Seq<int>) -> Seq<Seq<char>> {
    places.map_values(|p: int| rows[p].key)
}

/// A row that may be evicted: when it expires, where it stands in the table,
/// and the slot that holds its key.
#[derive(Clone, Copy)]
struct Candidate {
    expiry: u64,
    place: u64,
    slot: usize,
}

/// Whether `a` expires no later than `b`.
spec fn no_later(a: Candidate, b: Candidate) -> bool {
    a.expiry < b.expiry || (a.expiry == b.expiry && a.place <= b.place)
}

fn later(a: Candidate, b: Candidate) -> (r: bool)
    ensures
        r == !no_later(a, b),
{
    a.expiry > b.expiry || (a.expiry == b.expiry && a.place > b.place)
}

spec fn parent(i: int) -> int {
    (i - 1) / 2
}

/// Each node but the root expires no later than its parent.
spec fn ordered(heap: Seq<Candidate>) -> bool {
    forall|i: int| 0 < i < heap.len() ==> no_later(#[trigger] heap[i], heap[parent(i)])
}

/// Ordered, but for the node at `at` and its parent.
spec fn ordered_but_above(heap: Seq<Candidate>, at: int) -> bool {
    &&& forall|i: int|
        0 < i < heap.len() && i != at ==> no_later(#[trigger] heap[i], heap[parent(i)])
    &&& forall|i: int|
        0 < i < heap.len() && parent(i) == at && at > 0 ==> no_later(
            #[trigger] heap[i],
            heap[parent(at)],
        )
}

/// Ordered, but for the node at `at` and its children.
spec fn ordered_but_below(heap: Seq<Candidate>, at: int) -> bool {
    &&& forall|i: int|
        0 < i < heap.len() && parent(i) != at ==> no_later(#[trigger] heap[i], heap[parent(i)])
    &&& forall|i: int|
        0 < i < heap.len() && parent(i) == at && at > 0 ==> no_later(
            #[trigger] heap[i],
            heap[parent(at)],
        )
}

/// Two heaps with the same candidates, each in a slot of its own.
spec fn same_candidates(a: Seq<Candidate>, b: Seq<Candidate>) -> bool {
    &&& a.len() == b.len()
    &&& forall|c: Candidate| a.contains(c) <==> #[trigger] b.contains(c)
    &&& one_per_slot(a) ==> one_per_slot(b)
}

spec fn one_per_slot(heap: Seq<Candidate>) -> bool {
    forall|i: int, j: int|
        0 <= i < j < heap.len() ==> (#[trigger] heap[i]).slot != (#[trigger] heap[j]).slot
}

fn exchange(heap: &mut Vec<Candidate>, i: usize, j: usize)
    requires
        i < old(heap)@.len(),
        j < old(heap)@.len(),
        i != j,
    ensures
        final(heap)@ == old(heap)@.update(i as int, old(heap)@[j as int]).update(
            j as int,
            old(heap)@[i as int],
        ),
        same_candidates(old(heap)@, final(heap)@),
{
    let a = heap[i];
    let b = heap[j];
    heap.set(i, b);
    heap.set(j, a);
    proof {
        let was = old(heap)@;
        let is = heap@;
        assert forall|c: Candidate| was.contains(c) <==> #[trigger] is.contains(c) by {
            if was.contains(c) {
                let k = choose|k: int| 0 <= k < was.len() && was[k] == c;
                if k == i {
                    assert(is[j as int] == c);
                } else if k == j {
                    assert(is[i as int] == c);
                } else {
                    assert(is[k] == c);
                }
            }
            if is.contains(c) {
                let k = choose|k: int| 0 <= k < is.len() && is[k] == c;
                if k == i {
                    assert(was[j as int] == c);
                } else if k == j {
                    assert(was[i as int] == c);
                } else {
                    assert(was[k] == c);
                }
            }
        }
    }
}

/// Moves a node up until its parent expires no sooner.
fn sift_up(heap: &mut Vec<Candidate>, start: usize)
    requires
        start < old(heap)@.len(),
        ordered_but_above(old(heap)@, start as int),
    ensures
        ordered(final(heap)@),
        same_candidates(old(heap)@, final(heap)@),
{
    let mut at: usize = start;
    while at > 0
        invariant
            at < heap@.len(),
            ordered_but_above(heap@, at as int),
            same_candidates(old(heap)@, heap@),
        ensures
            ordered(heap@),
            same_candidates(old(heap)@, heap@),
        decreases at,
    {
        let up: usize = (at - 1) / 2;
        if later(heap[at], heap[up]) {
            exchange(heap, at, up);
            at = up;
        } else {
            break;
        }
    }
}

/// Moves a node down until its children expire no later.
fn sift_down(heap: &mut Vec<Candidate>, start: usize)
    requires
        start < old(heap)@.len(),
        ordered_but_below(old(heap)@, start as int),
    ensures
        ordered(final(heap)@),
        same_candidates(old(heap)@, final(heap)@),
{
    let mut at: usize = start;
    let len: usize = heap.len();
    while at < len / 2
        invariant
            len == heap@.len(),
            at < len,
            ordered_but_below(heap@, at as int),
            same_candidates(old(heap)@, heap@),
        ensures
            ordered(heap@),
            same_candidates(old(heap)@, heap@),
        decreases len - at,
    {
        let left: usize = 2 * at + 1;
        let mut child: usize = left;
        if left + 1 < len && later(heap[left + 1], heap[left]) {
            child = left + 1;
        }
        if later(heap[child], heap[at]) {
            exchange(heap, at, child);
            at = child;
        } else {
            break;
        }
    }
}

proof fn lemma_root_is_latest(heap: Seq<Candidate>, i: int)
    requires
        ordered(heap),
        0 <= i < heap.len(),
    ensures
        no_later(heap[i], heap[0]),
    decreases i,
{
    if i > 0 {
        lemma_root_is_latest(heap, parent(i));
    }
}

/// The rows to evict, gathered in one walk over the table: a heap of the
/// soonest to expire that have been seen, with the last of them on top. Bounded
/// memory over an unbounded table, unlike sorting the whole thing.
pub struct Victims {
    limit: usize,
    seen: u64,
    heap: Vec<Candidate>,
    keys: Vec<String>,
    rows: Ghost<Seq<Row>>,
    places: Ghost<Seq<int>>,
}

impl Victims {
    /// The rows seen so far.
    pub closed spec fn rows(&self) -> Seq<Row> {
        self.rows@
    }

    /// How many rows are to go.
    pub closed spec fn limit(&self) -> nat {
        self.limit as nat
    }

    /// Where the rows stand that are to go, in no particular order.
    pub closed spec fn places(&self) -> Seq<int> {
        self.places@
    }

    /// The rows held are the soonest to expire of those seen.
    pub closed spec fn wf(&self) -> bool {
        self.seen == self.rows@.len() && self.holds(self.rows@)
    }

    spec fn holds(&self, rows: Seq<Row>) -> bool {
        let heap = self.heap@;
        let places = self.places@;
        &&& soonest(rows, self.limit as nat, places)
        &&& texts(self.keys@) == keys_at(rows, places)
        &&& heap.len() == places.len()
        &&& ordered(heap)
        &&& one_per_slot(heap)
        &&& forall|c: Candidate| #[trigger] heap.contains(c) ==> stands_for(rows, places, c)
        &&& forall|s: int| 0 <= s < places.len() ==> #[trigger] slot_used(heap, s)
    }

    /// A walk that has seen nothing, for `limit` rows.
    pub fn new(limit: usize) -> (r: Self)
        ensures
            r.wf(),
            r.limit() == limit,
            r.rows() == Seq::<Row>::empty(),
    {
        let r = Victims {
            limit,
            seen: 0,
            heap: Vec::new(),
            keys: Vec::new(),
            rows: Ghost(Seq::empty()),
            places: Ghost(Seq::empty()),
        };
        assert(texts(r.keys@) =~= keys_at(r.rows@, r.places@));
        r
    }

    /// Takes the next row.
    pub fn visit(&mut self, key: &str, expiry: Option<u64>)
        requires
            old(self).wf(),
            old(self).rows().len() < u64::MAX,
        ensures
            final(self).wf(),
            final(self).limit() == old(self).limit(),
            final(self).rows() == old(self).rows().push(Row { key: key@, expiry }),
    {
        let place: u64 = self.seen;
        let ghost was = self.rows@;
        let ghost row = Row { key: key@, expiry };
        self.seen = self.seen + 1;
        self.rows = Ghost(self.rows@.push(row));
        proof {
            assert(self.rows@.drop_last() =~= was);
        }
        let e: u64 = match expiry {
            Some(e) => e,
            None => {
                proof {
                    lemma_soonest_skips(was, row, self.limit as nat, self.places@);
                    lemma_keys_kept(was, row, self.places@);
                    lemma_stand_kept(was, row, self.places@);
                }
                return;
            },
        };
        let held: usize = self.heap.len();
        if held < self.limit {
            self.push(key, e, place, Ghost(was));
        } else if held > 0 && e < self.heap[0].expiry {
            self.replace(key, e, place, Ghost(was));
        } else {
            proof {
                lemma_keys_kept(was, row, self.places@);
                lemma_stand_kept(was, row, self.places@);
                self.lemma_places_before_root(was);
                lemma_soonest_passes(was, row, self.limit as nat, self.places@);
            }
        }
    }

    proof fn lemma_places_before_root(&self, rows: Seq<Row>)
        requires
            self.holds(rows),
        ensures
            forall|s: int|
                #![trigger self.places@[s]]
                0 <= s < self.places@.len() ==> {
                    let p = self.places@[s];
                    let root = self.heap@[0];
                    let e = rows[p].expiry->0;
                    e < root.expiry || (e == root.expiry && p <= root.place)
                },
    {
        assert forall|s: int|
            #![trigger self.places@[s]]
            0 <= s < self.places@.len() implies {
                let p = self.places@[s];
                let root = self.heap@[0];
                let e = rows[p].expiry->0;
                e < root.expiry || (e == root.expiry && p <= root.place)
            } by {
            assert(slot_used(self.heap@, s));
            let i = choose|i: int| 0 <= i < self.heap@.len() && (#[trigger] self.heap@[i]).slot == s;
            assert(self.heap@.contains(self.heap@[i]));
            lemma_root_is_latest(self.heap@, i);
        }
    }

    /// Takes a row while there is room.
    fn push(&mut self, key: &str, e: u64, place: u64, Ghost(was): Ghost<Seq<Row>>)
        requires
            old(self).holds(was),
            old(self).heap@.len() < old(self).limit,
            old(self).rows@ == was.push(Row { key: key@, expiry: Some(e) }),
            place == was.len(),
            old(self).seen == old(self).rows@.len(),
        ensures
            final(self).wf(),
            final(self).limit == old(self).limit,
            final(self).rows@ == old(self).rows@,
    {
        let slot: usize = self.heap.len();
        let c = Candidate { expiry: e, place, slot };
        let ghost row = Row { key: key@, expiry: Some(e) };
        let ghost places = self.places@;
        let ghost heap = self.heap@;
        let ghost keys = self.keys@;
        proof {
            lemma_keys_kept(was, row, places);
            lemma_stand_kept(was, row, places);
            lemma_soonest_grows(was, row, self.limit as nat, places);
        }
        self.keys.push(key.to_owned());
        self.places = Ghost(places.push(place as int));
        self.heap.push(c);
        proof {
            let grown = places.push(place as int);
            assert(self.rows@.drop_last() =~= was);
            assert(keys.len() == texts(keys).len());
            assert forall|s: int| 0 <= s < grown.len() implies texts(self.keys@)[s] == keys_at(
                self.rows@,
                grown,
            )[s] by {
                if s < places.len() {
                    assert(texts(keys)[s] == keys_at(self.rows@, places)[s]);
                }
            }
            assert(texts(self.keys@) =~= keys_at(self.rows@, grown));
            assert forall|i: int, j: int| 0 <= i < j < self.heap@.len() implies (
            #[trigger] self.heap@[i]).slot != (#[trigger] self.heap@[j]).slot by {
                assert(heap.contains(heap[i]));
                assert(stands_for(was, places, heap[i]));
            }
            assert forall|x: Candidate| #[trigger] self.heap@.contains(x) implies stands_for(
                self.rows@,
                grown,
                x,
            ) by {
                let i = choose|i: int| 0 <= i < self.heap@.len() && self.heap@[i] == x;
                if i < heap.len() {
                    assert(heap.contains(heap[i]));
                    assert(stands_for(was, places, x));
                }
            }
            assert forall|s: int| 0 <= s < grown.len() implies #[trigger] slot_used(self.heap@, s) by {
                if s < places.len() {
                    assert(slot_used(heap, s));
                    let i = choose|i: int| 0 <= i < heap.len() && (#[trigger] heap[i]).slot == s;
                    assert(self.heap@[i].slot == s);
                } else {
                    assert(self.heap@[s].slot == s);
                }
            }
        }
        let ghost unsifted = self.heap@;
        sift_up(&mut self.heap, slot);
        proof {
            lemma_slots_kept(unsifted, self.heap@, self.places@);
        }
    }

    /// Takes a row in place of the last of those held.
    fn replace(&mut self, key: &str, e: u64, place: u64, Ghost(was): Ghost<Seq<Row>>)
        requires
            old(self).holds(was),
            old(self).heap@.len() >= old(self).limit,
            old(self).heap@.len() > 0,
            e < old(self).heap@[0].expiry,
            old(self).rows@ == was.push(Row { key: key@, expiry: Some(e) }),
            place == was.len(),
            old(self).seen == old(self).rows@.len(),
        ensures
            final(self).wf(),
            final(self).limit == old(self).limit,
            final(self).rows@ == old(self).rows@,
    {
        let slot: usize = self.heap[0].slot;
        let c = Candidate { expiry: e, place, slot };
        let ghost row = Row { key: key@, expiry: Some(e) };
        let ghost places = self.places@;
        let ghost heap = self.heap@;
        let ghost keys = self.keys@;
        proof {
            assert(heap.contains(heap[0]));
            assert(stands_for(was, places, heap[0]));
            assert(keys.len() == texts(keys).len());
            lemma_keys_kept(was, row, places);
            lemma_stand_kept(was, row, places);
            self.lemma_places_before_root(was);
            lemma_soonest_trades(was, row, self.limit as nat, places, slot as int);
        }
        self.keys.set(slot, key.to_owned());
        self.places = Ghost(places.update(slot as int, place as int));
        self.heap.set(0, c);
        proof {
            let traded = places.update(slot as int, place as int);
            assert(self.rows@.drop_last() =~= was);
            assert(texts(self.keys@) =~= keys_at(self.rows@, traded)) by {
                assert forall|s: int| 0 <= s < keys.len() implies texts(self.keys@)[s] == keys_at(
                    self.rows@,
                    traded,
                )[s] by {
                    if s != slot {
                        assert(texts(keys)[s] == keys_at(was, places)[s]);
                        assert(dated(was, places[s]));
                    }
                }
            }
            assert(self.heap@ =~= heap.update(0, c));
            assert forall|x: Candidate| #[trigger] self.heap@.contains(x) implies stands_for(
                self.rows@,
                traded,
                x,
            ) by {
                let i = choose|i: int| 0 <= i < self.heap@.len() && self.heap@[i] == x;
                if i > 0 {
                    assert(heap[0].slot != heap[i].slot);
                    assert(heap.contains(heap[i]));
                    assert(stands_for(was, places, x));
                }
            }
            assert forall|s: int| 0 <= s < traded.len() implies #[trigger] slot_used(self.heap@, s) by {
                assert(slot_used(heap, s));
                let i = choose|i: int| 0 <= i < heap.len() && (#[trigger] heap[i]).slot == s;
                assert(self.heap@[i].slot == s);
            }
        }
        let ghost unsifted = self.heap@;
        sift_down(&mut self.heap, 0);
        proof {
            lemma_slots_kept(unsifted, self.heap@, self.places@);
        }
    }

    /// The keys of the rows that are to go, in no particular order.
    pub fn finish(self) -> (r: Vec<String>)
        requires
            self.wf(),
        ensures
            soonest(self.rows(), self.limit(), self.places()),
            texts(r@) == keys_at(self.rows(), self.places()),
    {
        self.keys
    }
}

/// Whether a candidate says of its row what is so.
spec fn stands_for(rows: Seq<Row>, places: Seq<int>, c: Candidate) -> bool {
    &&& c.slot < places.len()
    &&& places[c.slot as int] == c.place
    &&& c.place < rows.len()
    &&& rows[c.place as int].expiry == Some(c.expiry)
}

/// Whether a candidate has this slot.
spec fn slot_used(heap: Seq<Candidate>, s: int) -> bool {
    exists|i: int| 0 <= i < heap.len() && (#[trigger] heap[i]).slot == s
}

proof fn lemma_slots_kept(a: Seq<Candidate>, b: Seq<Candidate>, places: Seq<int>)
    requires
        same_candidates(a, b),
        forall|s: int| 0 <= s < places.len() ==> #[trigger] slot_used(a, s),
    ensures
        forall|s: int| 0 <= s < places.len() ==> #[trigger] slot_used(b, s),
{
    assert forall|s: int| 0 <= s < places.len() implies #[trigger] slot_used(b, s) by {
        assert(slot_used(a, s));
        let i = choose|i: int| 0 <= i < a.len() && (#[trigger] a[i]).slot == s;
        assert(a.contains(a[i]));
        assert(b.contains(a[i]));
        let j = choose|j: int| 0 <= j < b.len() && b[j] == a[i];
        assert(b[j].slot == s);
    }
}

proof fn lemma_keys_kept(rows: Seq<Row>, row: Row, places: Seq<int>)
    requires
        forall|s: int| 0 <= s < places.len() ==> dated(rows, #[trigger] places[s]),
    ensures
        keys_at(rows.push(row), places) == keys_at(rows, places),
{
    assert forall|s: int| 0 <= s < places.len() implies keys_at(rows.push(row), places)[s] == keys_at(
        rows,
        places,
    )[s] by {
        assert(dated(rows, places[s]));
    }
    assert(keys_at(rows.push(row), places) =~= keys_at(rows, places));
}

proof fn lemma_stand_kept(rows: Seq<Row>, row: Row, places: Seq<int>)
    ensures
        forall|c: Candidate| #[trigger]
            stands_for(rows, places, c) ==> stands_for(rows.push(row), places, c),
{
}

/// A row without an expiry changes nothing.
proof fn lemma_soonest_skips(rows: Seq<Row>, row: Row, limit: nat, places: Seq<int>)
    requires
        soonest(rows, limit, places),
        row.expiry is None,
    ensures
        soonest(rows.push(row), limit, places),
{
    let all = rows.push(row);
    assert(all.drop_last() =~= rows);
    assert forall|s: int| 0 <= s < places.len() implies dated(all, #[trigger] places[s]) by {
        assert(dated(rows, places[s]));
    }
    assert forall|s: int, p: int|
        0 <= s < places.len() && #[trigger] dated(all, p) && !places.contains(p) implies goes_before(
        all,
        #[trigger] places[s],
        p,
    ) by {
        assert(dated(rows, p));
        assert(dated(rows, places[s]));
    }
}

/// A row that goes before none of those held changes nothing.
proof fn lemma_soonest_passes(rows: Seq<Row>, row: Row, limit: nat, places: Seq<int>)
    requires
        soonest(rows, limit, places),
        row.expiry is Some,
        places.len() >= limit,
        forall|s: int|
            0 <= s < places.len() ==> rows[#[trigger] places[s]].expiry->0 <= row.expiry->0,
    ensures
        soonest(rows.push(row), limit, places),
{
    let all = rows.push(row);
    assert(all.drop_last() =~= rows);
    assert forall|s: int| 0 <= s < places.len() implies dated(all, #[trigger] places[s]) by {
        assert(dated(rows, places[s]));
    }
    assert forall|s: int, p: int|
        0 <= s < places.len() && #[trigger] dated(all, p) && !places.contains(p) implies goes_before(
        all,
        #[trigger] places[s],
        p,
    ) by {
        assert(dated(rows, places[s]));
        if p < rows.len() {
            assert(dated(rows, p));
        }
    }
}

/// While there is room every row is taken.
proof fn lemma_soonest_grows(rows: Seq<Row>, row: Row, limit: nat, places: Seq<int>)
    requires
        soonest(rows, limit, places),
        row.expiry is Some,
        places.len() < limit,
    ensures
        soonest(rows.push(row), limit, places.push(rows.len() as int)),
{
    let all = rows.push(row);
    let grown = places.push(rows.len() as int);
    assert(all.drop_last() =~= rows);
    assert forall|s: int| 0 <= s < grown.len() implies dated(all, #[trigger] grown[s]) by {
        if s < places.len() {
            assert(dated(rows, places[s]));
        }
    }
    assert forall|s: int, t: int| 0 <= s < grown.len() && 0 <= t < grown.len() && s != t implies grown[s]
        != grown[t] by {
        if s < places.len() {
            assert(dated(rows, places[s]));
        }
        if t < places.len() {
            assert(dated(rows, places[t]));
        }
    }
    lemma_all_held(rows, limit, places);
    assert forall|s: int, p: int|
        0 <= s < grown.len() && #[trigger] dated(all, p) && !grown.contains(p) implies goes_before(
        all,
        #[trigger] grown[s],
        p,
    ) by {
        if p < rows.len() {
            assert(dated(rows, p));
            let t = choose|t: int| 0 <= t < places.len() && places[t] == p;
            assert(grown[t] == p);
        } else {
            assert(grown[places.len() as int] == p);
        }
    }
}

/// Where fewer are held than may be, every dated row is.
proof fn lemma_all_held(rows: Seq<Row>, limit: nat, places: Seq<int>)
    requires
        soonest(rows, limit, places),
        places.len() < limit,
    ensures
        forall|p: int| #[trigger] dated(rows, p) ==> places.contains(p),
{
    let all = Set::new(|p: int| dated(rows, p));
    lemma_dated_count(rows);
    places.unique_seq_to_set();
    let held = places.to_set();
    assert(held.subset_of(all)) by {
        assert forall|p: int| held.contains(p) implies all.contains(p) by {
            let s = choose|s: int| 0 <= s < places.len() && places[s] == p;
            assert(dated(rows, places[s]));
        }
    }
    vstd::set_lib::lemma_subset_equality(held, all);
    assert forall|p: int| #[trigger] dated(rows, p) implies places.contains(p) by {
        assert(all.contains(p));
        assert(held.contains(p));
    }
}

proof fn lemma_dated_count(rows: Seq<Row>)
    ensures
        Set::new(|p: int| dated(rows, p)).finite(),
        Set::new(|p: int| dated(rows, p)).len() == dated_count(rows),
    decreases rows.len(),
{
    let all = Set::new(|p: int| dated(rows, p));
    if rows.len() == 0 {
        assert(all =~= Set::<int>::empty());
    } else {
        let init = rows.drop_last();
        lemma_dated_count(init);
        let before = Set::new(|p: int| dated(init, p));
        let n = rows.len() - 1;
        if rows.last().expiry is Some {
            assert(all =~= before.insert(n));
        } else {
            assert(all =~= before);
        }
    }
}

/// A row that goes before the last of those held takes its place.
proof fn lemma_soonest_trades(rows: Seq<Row>, row: Row, limit: nat, places: Seq<int>, slot: int)
    requires
        soonest(rows, limit, places),
        row.expiry is Some,
        places.len() >= limit,
        0 <= slot < places.len(),
        row.expiry->0 < rows[places[slot]].expiry->0,
        forall|s: int|
            #![trigger places[s]]
            0 <= s < places.len() && s != slot ==> goes_before(rows, places[s], places[slot])
                || places[s] == places[slot],
    ensures
        soonest(rows.push(row), limit, places.update(slot, rows.len() as int)),
{
    let all = rows.push(row);
    let n = rows.len() as int;
    let traded = places.update(slot, n);
    assert(all.drop_last() =~= rows);
    assert(dated(rows, places[slot]));
    assert forall|s: int| 0 <= s < traded.len() implies dated(all, #[trigger] traded[s]) by {
        assert(dated(rows, places[s]));
    }
    assert forall|s: int, t: int| 0 <= s < traded.len() && 0 <= t < traded.len() && s != t implies traded[s]
        != traded[t] by {
        assert(dated(rows, places[s]));
        assert(dated(rows, places[t]));
    }
    assert forall|s: int, p: int|
        0 <= s < traded.len() && #[trigger] dated(all, p) && !traded.contains(p) implies goes_before(
        all,
        #[trigger] traded[s],
        p,
    ) by {
        assert(traded[slot] == n);
        assert(p < n);
        assert(dated(rows, p));
        assert(dated(rows, places[s]));
        if p == places[slot] {
            if s != slot {
                assert(places[s] != places[slot]);
                assert(goes_before(rows, places[s], places[slot]));
            }
        } else {
            if places.contains(p) {
                let t = choose|t: int| 0 <= t < places.len() && places[t] == p;
                assert(traded[t] == p);
            }
            assert(goes_before(rows, places[slot], p));
            assert(goes_before(rows, places[s], p));
        }
    }
}

/// The keys, cut into the batches that are deleted in one transaction each.
pub open spec fn joined(batches: Seq<Vec<String>>) -> Seq<Seq<char>>
    decreases batches.len(),
{
    if batches.len() == 0 {
        Seq::empty()
    } else {
        joined(batches.drop_last()) + texts(batches.last()@)
    }
}

/// Cuts keys into batches: full ones, but for the last, which is not empty.
pub fn batches(keys: Vec<String>) -> (r: Vec<Vec<String>>)
    ensures
        joined(r@) == texts(keys@),
        forall|i: int| 0 <= i < r@.len() ==> 0 < (#[trigger] r@[i])@.len() <= SWEEP_BATCH,
        forall|i: int| 0 <= i < r@.len() - 1 ==> (#[trigger] r@[i])@.len() == SWEEP_BATCH,
{
    let mut out: Vec<Vec<String>> = Vec::new();
    let mut batch: Vec<String> = Vec::new();
    let mut at: usize = 0;
    assert(joined(out@) + texts(batch@) =~= texts(keys@.take(0)));
    while at < keys.len()
        invariant
            at <= keys@.len(),
            joined(out@) + texts(batch@) == texts(keys@.take(at as int)),
            batch@.len() <= SWEEP_BATCH,
            at > 0 ==> batch@.len() > 0,
            out@.len() > 0 ==> at > 0,
            forall|i: int| 0 <= i < out@.len() ==> (#[trigger] out@[i])@.len() == SWEEP_BATCH,
        decreases keys@.len() - at,
    {
        if batch.len() >= SWEEP_BATCH {
            let ghost cut = out@;
            let ghost full = batch@;
            out.push(batch);
            batch = Vec::new();
            assert(out@.drop_last() =~= cut);
            assert(joined(out@) + texts(batch@) =~= joined(cut) + texts(full));
        }
        let ghost held = batch@;
        batch.push(keys[at].clone());
        proof {
            assert(texts(batch@) =~= texts(held).push(keys@[at as int]@));
            assert(texts(keys@.take(at + 1)) =~= texts(keys@.take(at as int)).push(
                keys@[at as int]@,
            ));
            assert(joined(out@) + texts(batch@) =~= (joined(out@) + texts(held)).push(
                keys@[at as int]@,
            ));
        }
        at = at + 1;
    }
    assert(keys@.take(at as int) =~= keys@);
    if batch.len() > 0 {
        let ghost cut = out@;
        out.push(batch);
        assert(out@.drop_last() =~= cut);
    } else {
        assert(joined(out@) + texts(batch@) =~= joined(out@));
    }
    out
}

proof fn lemma_all_dated(rows: Seq<Row>)
    requires
        forall|i: int| 0 <= i < rows.len() ==> (#[trigger] rows[i]).expiry is Some,
    ensures
        dated_count(rows) == rows.len(),
    decreases rows.len(),
{
    if rows.len() > 0 {
        let init = rows.drop_last();
        assert forall|i: int| 0 <= i < init.len() implies (#[trigger] init[i]).expiry is Some by {
            assert(init[i] == rows[i]);
        }
        lemma_all_dated(init);
        assert(rows[rows.len() - 1].expiry is Some);
    }
}

/// A table over its cap is brought back down to it, or by a full eviction where
/// it is further over than that; one under its cap, or with a cap of zero,
/// loses nothing.
pub proof fn law_evicts_down_to_the_cap(rows: Seq<Row>, cap: nat, places: Seq<int>)
    requires
        forall|i: int| 0 <= i < rows.len() ==> (#[trigger] rows[i]).expiry is Some,
        soonest(rows, over_cap(rows.len(), cap), places),
    ensures
        cap == 0 || rows.len() <= cap ==> places.len() == 0,
        cap > 0 && cap < rows.len() <= cap + EVICT_BATCH ==> rows.len() - places.len() == cap,
        cap > 0 && rows.len() > cap + EVICT_BATCH ==> places.len() == EVICT_BATCH,
{
    lemma_all_dated(rows);
}

/// No entry is spared that expires sooner than one that is evicted.
pub proof fn law_the_soonest_to_expire_go(rows: Seq<Row>, limit: nat, places: Seq<int>, gone: int, kept: int)
    requires
        soonest(rows, limit, places),
        places.contains(gone),
        dated(rows, kept),
        !places.contains(kept),
    ensures
        rows[gone].expiry->0 <= rows[kept].expiry->0,
{
    let s = choose|s: int| 0 <= s < places.len() && places[s] == gone;
    assert(goes_before(rows, places[s], kept));
}

/// A table over its cap loses what is over it, and no more than fifty thousand
/// at once; one within its cap, or without one, loses nothing.
pub proof fn law_what_is_over_the_cap_goes(live: u64, cap: u64, r: Option<usize>)
    requires
        call_ensures(excess, (live, cap), r),
    ensures
        cap == 0 || live <= cap ==> r is None,
        0 < cap < live && live - cap <= 50_000 ==> (r matches Some(n) && n == live - cap),
        0 < cap < live && live - cap > 50_000 ==> r == Some(50_000usize),
{
}

/// What is evicted is rows with an expiry, each once, as many as asked for or
/// all there are; every one goes before every such row that stays: it expires
/// sooner, or at the same time and stands earlier in the table. The keys handed
/// over are theirs.
pub proof fn law_who_is_evicted(victims: Victims, r: Vec<String>)
    requires
        victims.wf(),
        call_ensures(Victims::finish, (victims,), r),
    ensures
        ({
            let rows = victims.rows();
            let places = victims.places();
            let all = Set::new(|p: int| 0 <= p < rows.len() && rows[p].expiry is Some);
            &&& r@.len() == places.len()
            &&& r@.len() == if all.len() < victims.limit() {
                all.len()
            } else {
                victims.limit()
            }
            &&& forall|k: int|
                0 <= k < r@.len() ==> all.contains(places[k]) && (#[trigger] r@[k])@
                    == rows[places[k]].key
            &&& forall|k: int, m: int|
                0 <= k < m < places.len() ==> #[trigger] places[k] != #[trigger] places[m]
            &&& forall|k: int, p: int|
                0 <= k < places.len() && #[trigger] all.contains(p) && !places.contains(p) ==> {
                    let gone = rows[#[trigger] places[k]].expiry->0;
                    let kept = rows[p].expiry->0;
                    gone < kept || gone == kept && places[k] < p
                }
        }),
{
    let rows = victims.rows();
    let places = victims.places();
    lemma_dated_count(rows);
    assert(Set::new(|p: int| 0 <= p < rows.len() && rows[p].expiry is Some) =~= Set::new(
        |p: int| dated(rows, p),
    ));
    assert(texts(r@).len() == r@.len());
    assert forall|k: int| 0 <= k < r@.len() implies dated(rows, places[k]) && (#[trigger] r@[k])@
        == rows[places[k]].key by {
        assert(texts(r@)[k] == r@[k]@);
        assert(keys_at(rows, places)[k] == rows[places[k]].key);
    }
    assert forall|k: int, p: int|
        0 <= k < places.len() && #[trigger] dated(rows, p) && !places.contains(p) implies {
        let gone = rows[#[trigger] places[k]].expiry->0;
        let kept = rows[p].expiry->0;
        gone < kept || gone == kept && places[k] < p
    } by {
        assert(goes_before(rows, places[k], p));
    }
}

/// Keys are cut into batches in their order: the first batch holds the first
/// four thousand and ninety-six, the next the next, and none is lost or added.
pub proof fn law_batches_hold_the_keys_in_order(keys: Vec<String>, r: Vec<Vec<String>>, k: int)
    requires
        call_ensures(batches, (keys,), r),
        0 <= k < keys@.len(),
    ensures
        k / 4096 < r@.len(),
        k % 4096 < r@[k / 4096]@.len(),
        r@[k / 4096]@[k % 4096]@ == keys@[k]@,
        r@.len() == (keys@.len() + 4095) / 4096,
{
    lemma_joined(r@, k);
    assert(texts(keys@)[k] == keys@[k]@);
    assert(texts(keys@).len() == keys@.len());
    lemma_joined_len(r@);
}

proof fn lemma_joined_len(cut: Seq<Vec<String>>)
    requires
        forall|i: int| 0 <= i < cut.len() ==> 0 < (#[trigger] cut[i])@.len() <= SWEEP_BATCH,
        forall|i: int| 0 <= i < cut.len() - 1 ==> (#[trigger] cut[i])@.len() == SWEEP_BATCH,
    ensures
        cut.len() > 0 ==> joined(cut).len() == (cut.len() - 1) * 4096 + cut.last()@.len(),
        cut.len() == 0 ==> joined(cut).len() == 0,
    decreases cut.len(),
{
    if cut.len() > 0 {
        let init = cut.drop_last();
        assert forall|i: int| 0 <= i < init.len() implies 0 < (#[trigger] init[i])@.len()
            <= SWEEP_BATCH by {
            assert(init[i] == cut[i]);
        }
        assert forall|i: int| 0 <= i < init.len() - 1 implies (#[trigger] init[i])@.len()
            == SWEEP_BATCH by {
            assert(init[i] == cut[i]);
        }
        lemma_joined_len(init);
        if init.len() > 0 {
            assert(init.last() == cut[cut.len() - 2]);
        }
    }
}

proof fn lemma_joined(cut: Seq<Vec<String>>, k: int)
    requires
        forall|i: int| 0 <= i < cut.len() ==> 0 < (#[trigger] cut[i])@.len() <= SWEEP_BATCH,
        forall|i: int| 0 <= i < cut.len() - 1 ==> (#[trigger] cut[i])@.len() == SWEEP_BATCH,
        0 <= k < joined(cut).len(),
    ensures
        k / 4096 < cut.len(),
        k % 4096 < cut[k / 4096]@.len(),
        joined(cut)[k] == cut[k / 4096]@[k % 4096]@,
    decreases cut.len(),
{
    if cut.len() > 0 {
        let init = cut.drop_last();
        lemma_joined_len(cut);
        assert forall|i: int| 0 <= i < init.len() implies 0 < (#[trigger] init[i])@.len()
            <= SWEEP_BATCH by {
            assert(init[i] == cut[i]);
        }
        assert forall|i: int| 0 <= i < init.len() - 1 implies (#[trigger] init[i])@.len()
            == SWEEP_BATCH by {
            assert(init[i] == cut[i]);
        }
        lemma_joined_len(init);
        if init.len() > 0 {
            assert(init.last() == cut[cut.len() - 2]);
        }
        let before = joined(init).len();
        assert(before == init.len() * 4096);
        if k < before {
            lemma_joined(init, k);
            assert(init[k / 4096] == cut[k / 4096]);
        } else {
            let m = k - before;
            assert(texts(cut.last()@)[m] == cut.last()@[m]@);
            assert(k / 4096 == init.len() && k % 4096 == m);
        }
    }
}

} // verus!
