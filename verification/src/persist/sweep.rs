//! Deleting what has expired.
//!
//! The table is walked in bounded passes. Collecting every expired key first
//! and deleting them in one transaction is simpler, but on a multi-million-row
//! table that is hundreds of megabytes of keys held at once -- which is the
//! unbounded memory the disk tier exists to avoid, arriving by another route.
use vstd::prelude::*;

use crate::persist::record::{lives, time_left};
use crate::text::{opt_text, texts};

verus! {

/// Keys deleted per transaction during a sweep or an eviction.
pub const SWEEP_BATCH: usize = 4096;

/// Rows examined before a sweep pass yields, so one pass over a huge table
/// neither holds a read transaction open indefinitely nor buffers without end.
pub const SCAN_BATCH: usize = 100_000;

/// A row of the table: its key, and its expiry where its bytes hold one.
pub struct Row {
    pub key: Seq<char>,
    pub expiry: Option<u64>,
}

impl Row {
    /// Whether the row is to go. A row without a readable expiry stays.
    pub open spec fn expired(self, now: u64) -> bool {
        self.expiry matches Some(e) && !lives(e, now)
    }
}

/// The keys of the expired rows, in the rows' order.
pub open spec fn expired_keys(rows: Seq<Row>, now: u64) -> Seq<Seq<char>>
    decreases rows.len(),
{
    if rows.len() == 0 {
        Seq::empty()
    } else if rows.last().expired(now) {
        expired_keys(rows.drop_last(), now).push(rows.last().key)
    } else {
        expired_keys(rows.drop_last(), now)
    }
}

/// Whether a pass that has seen these rows has seen enough.
pub open spec fn sated(rows: Seq<Row>, now: u64) -> bool {
    expired_keys(rows, now).len() >= SWEEP_BATCH || rows.len() >= SCAN_BATCH
}

/// One bounded pass over the table, row by row.
pub struct ExpiryScan {
    now: u64,
    expired: Vec<String>,
    last: Option<String>,
    scanned: usize,
    rows: Ghost<Seq<Row>>,
}

impl ExpiryScan {
    /// The rows seen so far.
    pub closed spec fn rows(&self) -> Seq<Row> {
        self.rows@
    }

    /// The time that expiry is judged by.
    pub closed spec fn time(&self) -> u64 {
        self.now
    }

    /// What is held of the rows is what they say.
    pub closed spec fn wf(&self) -> bool {
        &&& texts(self.expired@) == expired_keys(self.rows@, self.now)
        &&& self.scanned == self.rows@.len()
        &&& match self.last {
            Some(key) => self.rows@.len() > 0 && key@ == self.rows@.last().key,
            None => self.rows@.len() == 0,
        }
    }

    /// A pass that has seen nothing.
    pub fn new(now: u64) -> (r: Self)
        ensures
            r.wf(),
            r.time() == now,
            r.rows() == Seq::<Row>::empty(),
    {
        let r = ExpiryScan {
            now,
            expired: Vec::new(),
            last: None,
            scanned: 0,
            rows: Ghost(Seq::empty()),
        };
        assert(texts(r.expired@) =~= expired_keys(r.rows@, now));
        r
    }

    /// Takes the next row, and says whether the pass is over.
    pub fn visit(&mut self, key: &str, expiry: Option<u64>) -> (r: bool)
        requires
            old(self).wf(),
            !sated(old(self).rows(), old(self).time()),
        ensures
            final(self).wf(),
            final(self).time() == old(self).time(),
            final(self).rows() == old(self).rows().push(Row { key: key@, expiry }),
            r == sated(final(self).rows(), final(self).time()),
    {
        let ghost row = Row { key: key@, expiry };
        let ghost before = self.rows@;
        self.last = Some(key.to_owned());
        self.scanned = self.scanned + 1;
        self.rows = Ghost(self.rows@.push(row));
        assert(self.rows@.drop_last() =~= before);
        if let Some(e) = expiry {
            if time_left(e, self.now).is_none() {
                let ghost kept = self.expired@;
                self.expired.push(key.to_owned());
                assert(texts(self.expired@) =~= texts(kept).push(key@));
            }
        }
        assert(texts(self.expired@).len() == self.expired@.len());
        self.expired.len() >= SWEEP_BATCH || self.scanned >= SCAN_BATCH
    }

    /// The expired keys of the pass, and the key behind which to resume.
    /// Nothing to resume from means the end of the table.
    pub fn finish(self) -> (r: (Vec<String>, Option<String>))
        requires
            self.wf(),
        ensures
            texts(r.0@) == expired_keys(self.rows(), self.time()),
            match r.1 {
                Some(key) => sated(self.rows(), self.time()) && key@ == self.rows().last().key,
                None => !sated(self.rows(), self.time()),
            },
    {
        assert(texts(self.expired@).len() == self.expired@.len());
        if self.expired.len() >= SWEEP_BATCH || self.scanned >= SCAN_BATCH {
            (self.expired, self.last)
        } else {
            (self.expired, None)
        }
    }
}

/// What a sweep does next.
pub enum SweepStep {
    /// Pass over the table from behind this key, or from its start.
    Scan(Option<String>),
    /// Delete these.
    Delete(Vec<String>),
    /// Everything expired is gone; this many entries were. The size cap is next.
    Finish(usize),
}

/// A sweep between two steps. A step that fails ends it.
pub struct Sweep {
    removed: usize,
    doomed: usize,
    next: Option<String>,
}

impl Sweep {
    /// Entries deleted so far.
    pub closed spec fn removed(&self) -> nat {
        self.removed as nat
    }

    /// Entries handed out to be deleted.
    pub closed spec fn doomed(&self) -> nat {
        self.doomed as nat
    }

    /// Where the next pass resumes, once those are.
    pub closed spec fn next(&self) -> Option<Seq<char>> {
        opt_text(self.next)
    }

    /// A sweep that starts with a pass from the start of the table.
    pub fn new() -> (r: (Self, SweepStep))
        ensures
            r.0.removed() == 0,
            r.0.doomed() == 0,
            r.0.next() is None,
            r.1 matches SweepStep::Scan(from) && from is None,
    {
        (Sweep { removed: 0, doomed: 0, next: None }, SweepStep::Scan(None))
    }

    /// A pass is done: it found these, and ended at `next` or with the table.
    pub fn scanned(&mut self, batch: Vec<String>, next: Option<String>) -> (r: SweepStep)
        ensures
            final(self).removed() == old(self).removed(),
            final(self).doomed() == batch@.len(),
            final(self).next() == opt_text(next),
            batch@.len() > 0 ==> (r matches SweepStep::Delete(keys) && keys == batch),
            batch@.len() == 0 ==> match r {
                SweepStep::Scan(Some(from)) => Some(from@) == final(self).next(),
                SweepStep::Finish(n) => final(self).next() is None && n == final(self).removed(),
                _ => false,
            },
    {
        self.doomed = batch.len();
        self.next = next;
        if batch.len() > 0 {
            SweepStep::Delete(batch)
        } else {
            self.advance()
        }
    }

    /// Whether what was handed out can still be counted.
    pub fn countable(&self) -> (r: bool)
        ensures
            r == (self.removed() + self.doomed() <= usize::MAX),
    {
        self.removed <= usize::MAX - self.doomed
    }

    /// What was handed out has been deleted.
    pub fn deleted(&mut self) -> (r: SweepStep)
        requires
            old(self).removed() + old(self).doomed() <= usize::MAX,
        ensures
            final(self).removed() == old(self).removed() + old(self).doomed(),
            final(self).doomed() == 0,
            final(self).next() == old(self).next(),
            match r {
                SweepStep::Scan(Some(from)) => Some(from@) == old(self).next(),
                SweepStep::Finish(n) => old(self).next() is None && n == final(self).removed(),
                _ => false,
            },
    {
        self.removed = self.removed + self.doomed;
        self.doomed = 0;
        self.advance()
    }

    fn advance(&self) -> (r: SweepStep)
        ensures
            match r {
                SweepStep::Scan(Some(from)) => Some(from@) == self.next(),
                SweepStep::Finish(n) => self.next() is None && n == self.removed(),
                _ => false,
            },
    {
        match &self.next {
            Some(key) => SweepStep::Scan(Some(key.clone())),
            None => SweepStep::Finish(self.removed),
        }
    }
}

/// How far a pass over the rows behind `at` gets, given that it has come to
/// `to`.
pub open spec fn pass_end(rows: Seq<Row>, at: int, to: int, now: u64) -> int
    decreases rows.len() - to,
{
    if to >= rows.len() || sated(rows.subrange(at, to), now) {
        to
    } else {
        pass_end(rows, at, to + 1, now)
    }
}

/// What pass after pass over the rows behind `at` finds.
pub open spec fn swept(rows: Seq<Row>, at: int, now: u64) -> Seq<Seq<char>>
    decreases rows.len() - at,
{
    let end = pass_end(rows, at, at, now);
    if at < 0 || end <= at || end > rows.len() {
        Seq::empty()
    } else {
        expired_keys(rows.subrange(at, end), now) + swept(rows, end, now)
    }
}

proof fn lemma_expired_keys_append(a: Seq<Row>, b: Seq<Row>, now: u64)
    ensures
        expired_keys(a + b, now) == expired_keys(a, now) + expired_keys(b, now),
    decreases b.len(),
{
    if b.len() == 0 {
        assert(a + b =~= a);
        assert(expired_keys(a, now) + expired_keys(b, now) =~= expired_keys(a, now));
    } else {
        lemma_expired_keys_append(a, b.drop_last(), now);
        assert((a + b).drop_last() =~= a + b.drop_last());
        assert((a + b).last() == b.last());
        assert(expired_keys(a + b, now) =~= expired_keys(a, now) + expired_keys(b, now));
    }
}

proof fn lemma_pass_end(rows: Seq<Row>, at: int, to: int, now: u64)
    requires
        0 <= at <= to <= rows.len(),
        to > at ==> !sated(rows.subrange(at, to - 1), now),
    ensures
        to <= pass_end(rows, at, to, now) <= rows.len(),
        to == at < rows.len() ==> pass_end(rows, at, to, now) > at,
        pass_end(rows, at, to, now) > at ==> !sated(
            rows.subrange(at, pass_end(rows, at, to, now) - 1),
            now,
        ),
        pass_end(rows, at, to, now) < rows.len() ==> sated(
            rows.subrange(at, pass_end(rows, at, to, now)),
            now,
        ),
    decreases rows.len() - to,
{
    if to == at {
        assert(rows.subrange(at, to) =~= Seq::<Row>::empty());
        assert(expired_keys(rows.subrange(at, to), now).len() == 0);
    }
    if to >= rows.len() || sated(rows.subrange(at, to), now) {
    } else {
        lemma_pass_end(rows, at, to + 1, now);
    }
}

/// A pass that goes on while it has not seen enough, and stops where it has or
/// where the table ends, stops at the end of the pass.
pub proof fn law_a_pass_ends_where_it_is_sated(
    rows: Seq<Row>,
    at: int,
    from: int,
    to: int,
    now: u64,
)
    requires
        0 <= at <= from <= to <= rows.len(),
        forall|m: int| from <= m < to ==> !sated(#[trigger] rows.subrange(at, m), now),
        to == rows.len() || sated(rows.subrange(at, to), now),
    ensures
        pass_end(rows, at, from, now) == to,
    decreases to - from,
{
    if from < to {
        assert(!sated(rows.subrange(at, from), now));
        law_a_pass_ends_where_it_is_sated(rows, at, from + 1, to, now);
    }
}

/// Pass after pass, a sweep finds every expired row and no other, once each,
/// however the bounds cut the table into passes.
pub proof fn law_a_sweep_finds_exactly_the_expired(rows: Seq<Row>, now: u64)
    ensures
        swept(rows, 0, now) == expired_keys(rows, now),
{
    lemma_swept(rows, 0, now);
    assert(rows.subrange(0, rows.len() as int) =~= rows);
}

proof fn lemma_swept(rows: Seq<Row>, at: int, now: u64)
    requires
        0 <= at <= rows.len(),
    ensures
        swept(rows, at, now) == expired_keys(rows.subrange(at, rows.len() as int), now),
    decreases rows.len() - at,
{
    let end = pass_end(rows, at, at, now);
    lemma_pass_end(rows, at, at, now);
    if at < rows.len() {
        lemma_swept(rows, end, now);
        let rest = rows.subrange(end, rows.len() as int);
        lemma_expired_keys_append(rows.subrange(at, end), rest, now);
        assert(rows.subrange(at, rows.len() as int) =~= rows.subrange(at, end) + rest);
    } else {
        assert(rows.subrange(at, rows.len() as int) =~= Seq::<Row>::empty());
    }
}

/// No pass looks at more rows, or holds more keys, than its bounds allow.
pub proof fn law_a_pass_is_bounded(rows: Seq<Row>, at: int, now: u64)
    requires
        0 <= at <= rows.len(),
    ensures
        pass_end(rows, at, at, now) - at <= SCAN_BATCH,
        expired_keys(rows.subrange(at, pass_end(rows, at, at, now)), now).len() <= SWEEP_BATCH,
{
    let end = pass_end(rows, at, at, now);
    lemma_pass_end(rows, at, at, now);
    let seen = rows.subrange(at, end);
    if end > at {
        assert(seen.drop_last() =~= rows.subrange(at, end - 1));
    } else {
        assert(expired_keys(seen, now).len() == 0);
    }
}

/// A sweep deletes the expired rows and keeps the others: a row's key is among
/// those it finds exactly when the row has expired.
pub proof fn law_a_sweep_keeps_what_lives(rows: Seq<Row>, now: u64, i: int)
    requires
        0 <= i < rows.len(),
        forall|a: int, b: int|
            0 <= a < b < rows.len() ==> (#[trigger] rows[a]).key != (#[trigger] rows[b]).key,
    ensures
        swept(rows, 0, now).contains(rows[i].key) <==> rows[i].expired(now),
{
    law_a_sweep_finds_exactly_the_expired(rows, now);
    if rows[i].expired(now) {
        lemma_expired_is_found(rows, now, i);
    }
    if expired_keys(rows, now).contains(rows[i].key) {
        let j = lemma_found_is_expired(rows, now, rows[i].key);
        assert(i == j);
    }
}

proof fn lemma_expired_is_found(rows: Seq<Row>, now: u64, i: int)
    requires
        0 <= i < rows.len(),
        rows[i].expired(now),
    ensures
        expired_keys(rows, now).contains(rows[i].key),
    decreases rows.len(),
{
    let keys = expired_keys(rows, now);
    if i == rows.len() - 1 {
        assert(keys[keys.len() - 1] == rows[i].key);
    } else {
        let init = rows.drop_last();
        lemma_expired_is_found(init, now, i);
        let k = choose|k: int| 0 <= k < expired_keys(init, now).len() && expired_keys(init, now)[k] == init[i].key;
        assert(keys[k] == rows[i].key);
    }
}

proof fn lemma_found_is_expired(rows: Seq<Row>, now: u64, key: Seq<char>) -> (j: int)
    requires
        expired_keys(rows, now).contains(key),
    ensures
        0 <= j < rows.len(),
        rows[j].key == key,
        rows[j].expired(now),
    decreases rows.len(),
{
    let init = rows.drop_last();
    if rows.last().expired(now) && rows.last().key == key {
        rows.len() - 1
    } else {
        let keys = expired_keys(rows, now);
        let k = choose|k: int| 0 <= k < keys.len() && keys[k] == key;
        assert(expired_keys(init, now)[k] == key);
        lemma_found_is_expired(init, now, key)
    }
}

/// A row goes from the second of its expiry on; one without a readable expiry
/// never does.
pub proof fn law_when_a_row_is_expired(row: Row, now: u64)
    ensures
        row.expiry is None ==> !row.expired(now),
        row.expiry matches Some(e) ==> (row.expired(now) <==> e <= now),
{
}

/// The keys of the expired rows are gathered row by row, in the rows' order.
pub proof fn law_expired_keys_are_gathered_in_order(rows: Seq<Row>, row: Row, now: u64)
    ensures
        expired_keys(Seq::empty(), now) == Seq::<Seq<char>>::empty(),
        row.expiry matches Some(e) && e <= now ==> expired_keys(rows.push(row), now)
            == expired_keys(rows, now).push(row.key),
        !(row.expiry matches Some(e) && e <= now) ==> expired_keys(rows.push(row), now)
            == expired_keys(rows, now),
{
    assert(rows.push(row).drop_last() =~= rows);
}

/// A pass has seen enough when it holds four thousand and ninety-six keys or has
/// looked at a hundred thousand rows, and not before.
pub proof fn law_when_a_pass_has_seen_enough(rows: Seq<Row>, now: u64)
    ensures
        sated(rows, now) <==> expired_keys(rows, now).len() >= 4096 || rows.len() >= 100_000,
{
}

/// What a pass hands over is the keys of the expired rows it saw, and it is
/// resumed behind the last row exactly where it had seen enough.
pub proof fn law_a_pass_hands_over_what_it_saw(
    scan: ExpiryScan,
    r: (Vec<String>, Option<String>),
)
    requires
        scan.wf(),
        call_ensures(ExpiryScan::finish, (scan,), r),
    ensures
        r.0@.len() == expired_keys(scan.rows(), scan.time()).len(),
        forall|k: int|
            0 <= k < r.0@.len() ==> (#[trigger] r.0@[k])@ == expired_keys(
                scan.rows(),
                scan.time(),
            )[k],
        r.1 is Some <==> r.0@.len() >= 4096 || scan.rows().len() >= 100_000,
        r.1 matches Some(key) ==> key@ == scan.rows()[scan.rows().len() - 1].key,
{
    assert(texts(r.0@).len() == r.0@.len());
    assert forall|k: int| 0 <= k < r.0@.len() implies (#[trigger] r.0@[k])@ == expired_keys(
        scan.rows(),
        scan.time(),
    )[k] by {
        assert(texts(r.0@)[k] == r.0@[k]@);
    }
}

} // verus!
