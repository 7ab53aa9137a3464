use std::collections::VecDeque;
use std::ops::Bound;

use redb::backends::InMemoryBackend;
use redb::{Database, ReadableDatabase, ReadableTable, ReadableTableMetadata, TableDefinition};
use serde_json::Value;

use clearly_cached::persist::evict::{batches, excess, Victims};
use clearly_cached::persist::record::{time_left, Record};
use clearly_cached::persist::sweep::{ExpiryScan, Sweep, SweepStep};
use clearly_cached::persist::writer::{Msg, Writer};
use clearly_cached::time::unix_now;

const DEFINITIONS: TableDefinition<&str, &[u8]> = TableDefinition::new("definitions");

/// A store of strings over a database that lives in memory. What a writer
/// thread would do is done when the store is restarted.
struct Store {
    db: Database,
    queue: VecDeque<Msg>,
    max_entries: u64,
    transactions: usize,
}

fn encode(record: &Record<String>) -> Vec<u8> {
    let mut out = serde_json::Map::new();
    out.insert("e".into(), Value::from(record.e));
    out.insert("v".into(), Value::from(record.v.as_str()));
    serde_json::to_vec(&Value::Object(out)).unwrap()
}

fn decode(bytes: &[u8]) -> Option<Record<String>> {
    let value: Value = serde_json::from_slice(bytes).ok()?;
    Some(Record {
        e: value.get("e")?.as_u64()?,
        v: value.get("v")?.as_str()?.to_owned(),
    })
}

fn head(bytes: &[u8]) -> Option<u64> {
    let value: Value = serde_json::from_slice(bytes).ok()?;
    value.get("e")?.as_u64()
}

impl Store {
    fn open(max_entries: u64) -> Store {
        let db = Database::builder()
            .create_with_backend(InMemoryBackend::new())
            .unwrap();
        let txn = db.begin_write().unwrap();
        txn.open_table(DEFINITIONS).unwrap();
        txn.commit().unwrap();
        Store {
            db,
            queue: VecDeque::new(),
            max_entries,
            transactions: 0,
        }
    }

    fn put(&mut self, key: &str, value: &str, ttl: u64) {
        let record = Record::seal(value.to_owned(), ttl, unix_now());
        self.queue
            .push_back(Msg::Put(key.to_owned(), encode(&record)));
    }

    fn sweep(&mut self) {
        self.queue.push_back(Msg::Sweep);
    }

    /// Lets the writer work through the queue and stop.
    fn restart(mut self) -> Store {
        self.queue.push_back(Msg::Shutdown);
        let mut writer = Writer::new();
        loop {
            let msg = self.queue.pop_front();
            assert!(msg.is_some() || !writer.waits(), "waited on an empty queue");
            let step = writer.take(msg);
            if !step.commit.is_empty() {
                assert!(step.commit.len() <= 512);
                self.transactions += 1;
                let txn = self.db.begin_write().unwrap();
                {
                    let mut table = txn.open_table(DEFINITIONS).unwrap();
                    for (key, bytes) in &step.commit {
                        table.insert(key.as_str(), bytes.as_slice()).unwrap();
                    }
                }
                txn.commit().unwrap();
            }
            if step.sweep {
                self.run_sweep();
            }
            if step.stop {
                break;
            }
        }
        self.queue.clear();
        self
    }

    fn delete(&mut self, keys: &[String]) {
        let txn = self.db.begin_write().unwrap();
        {
            let mut table = txn.open_table(DEFINITIONS).unwrap();
            for key in keys {
                table.remove(key.as_str()).unwrap();
            }
        }
        txn.commit().unwrap();
    }

    fn scan(&self, now: u64, after: Option<&str>) -> (Vec<String>, Option<String>) {
        let txn = self.db.begin_read().unwrap();
        let table = txn.open_table(DEFINITIONS).unwrap();
        let range: (Bound<&str>, Bound<&str>) = match after {
            Some(k) => (Bound::Excluded(k), Bound::Unbounded),
            None => (Bound::Unbounded, Bound::Unbounded),
        };
        let mut scan = ExpiryScan::new(now);
        for row in table.range::<&str>(range).unwrap() {
            let (key, value) = row.unwrap();
            if scan.visit(key.value(), head(value.value())) {
                break;
            }
        }
        scan.finish()
    }

    fn run_sweep(&mut self) -> usize {
        let now = unix_now();
        let (mut sweep, mut step) = Sweep::new();
        loop {
            step = match step {
                SweepStep::Scan(after) => {
                    let (found, next) = self.scan(now, after.as_deref());
                    sweep.scanned(found, next)
                }
                SweepStep::Delete(keys) => {
                    self.delete(&keys);
                    assert!(sweep.countable());
                    sweep.deleted()
                }
                SweepStep::Finish(removed) => {
                    self.evict();
                    return removed;
                }
            };
        }
    }

    fn evict(&mut self) {
        let Some(limit) = excess(self.len(), self.max_entries) else {
            return;
        };
        let mut victims = Victims::new(limit);
        {
            let txn = self.db.begin_read().unwrap();
            let table = txn.open_table(DEFINITIONS).unwrap();
            for row in table.iter().unwrap() {
                let (key, value) = row.unwrap();
                victims.visit(key.value(), head(value.value()));
            }
        }
        for batch in batches(victims.finish()) {
            self.delete(&batch);
        }
    }

    fn get(&self, key: &str) -> Option<(String, u64)> {
        let txn = self.db.begin_read().unwrap();
        let table = txn.open_table(DEFINITIONS).unwrap();
        let bytes = table.get(key).unwrap()?;
        decode(bytes.value())?.open(unix_now())
    }

    fn len(&self) -> u64 {
        let txn = self.db.begin_read().unwrap();
        txn.open_table(DEFINITIONS).unwrap().len().unwrap()
    }
}

#[test]
fn survives_a_restart() {
    let mut store = Store::open(0);
    store.put("npm/npmjs/-/lodash/4.17.21", "MIT", 600);

    let store = store.restart();
    let (value, ttl) = store.get("npm/npmjs/-/lodash/4.17.21").unwrap();
    assert_eq!(value, "MIT");
    // Remaining, not original: a restart must not extend the life of an entry
    // that was nearly expired when it was written.
    assert!(ttl <= 600);
}

#[test]
fn an_expired_entry_is_not_returned() {
    let mut store = Store::open(0);
    store.put("stale", "x", 0);
    store.put("fresh", "y", 600);

    let store = store.restart();
    assert!(store.get("stale").is_none());
    assert!(store.get("fresh").is_some());
}

#[test]
fn sweeping_removes_expired_entries_and_keeps_live_ones() {
    let mut store = Store::open(0);
    for i in 0..10 {
        store.put(&format!("stale{i}"), "x", 0);
    }
    store.put("live", "y", 600);
    store.sweep();

    let store = store.restart();
    assert_eq!(store.len(), 1, "expired entries were not swept");
    assert!(store.get("live").is_some());
}

#[test]
fn a_repeated_key_keeps_the_later_value() {
    let mut store = Store::open(0);
    store.put("k", "old", 600);
    store.put("k", "new", 600);

    let store = store.restart();
    assert_eq!(store.get("k").unwrap().0, "new");
    assert_eq!(store.len(), 1);
}

#[test]
fn a_missing_key_is_absent_not_an_error() {
    let store = Store::open(0);
    assert!(store.get("never-written").is_none());
}

#[test]
fn sweeping_evicts_down_to_the_cap() {
    // Nothing bounds the disk tier on the write path, so without this the table
    // grows for as long as a caller keeps naming new coordinates.
    let mut store = Store::open(10);
    for i in 0..100 {
        // Ascending TTLs, so the soonest-to-expire are the low indices.
        store.put(&format!("k{i:03}"), "v", 600 + i);
    }
    store.sweep();

    let store = store.restart();
    assert_eq!(store.len(), 10, "table was not evicted to the cap");
    // Soonest-expiry-first: those were going to be re-fetched first anyway.
    assert!(store.get("k000").is_none(), "kept a soonest-expiring entry");
    assert!(store.get("k099").is_some(), "dropped a longest-lived entry");
}

#[test]
fn a_zero_cap_means_unbounded() {
    let mut store = Store::open(0);
    for i in 0..50 {
        store.put(&format!("k{i}"), "v", 600);
    }
    store.sweep();

    let store = store.restart();
    assert_eq!(store.len(), 50);
}

#[test]
fn a_write_queued_at_shutdown_is_not_lost() {
    // The batching writer is why this needs a test: a put returns before the
    // transaction commits, so a stop that does not drain the queue silently
    // drops whatever was in it.
    let mut store = Store::open(0);
    for i in 0..1000 {
        store.put(&format!("k{i}"), &format!("v{i}"), 600);
    }

    let store = store.restart();
    assert_eq!(store.len(), 1000);
    assert_eq!(store.get("k999").unwrap().0, "v999");
    // A full batch, and the rest.
    assert_eq!(store.transactions, 2);
}

#[test]
fn a_record_counts_down_to_its_expiry() {
    let record = Record::seal("v", 600, 1_000);
    assert_eq!(record.e, 1_600);
    assert_eq!(record.v, "v");
    assert_eq!(Record::seal("v", 600, 1_000).open(1_000), Some(("v", 600)));
    assert_eq!(Record::seal("v", 600, 1_000).open(1_599), Some(("v", 1)));
    assert_eq!(Record::seal("v", 600, 1_000).open(1_600), None);
    assert_eq!(time_left(5, 3), Some(2));
    assert_eq!(time_left(3, 3), None);
    assert_eq!(time_left(3, 5), None);
}

#[test]
fn the_wall_clock_stands_past_the_epoch() {
    // Later than this was written, and steady enough to tell seconds by.
    let now = unix_now();
    assert!(now > 1_700_000_000);
    assert!(unix_now() - now < 5);
}

fn put(key: &str) -> Option<Msg> {
    Some(Msg::Put(key.to_owned(), key.as_bytes().to_vec()))
}

fn keys(commit: &[(String, Vec<u8>)]) -> Vec<&str> {
    commit.iter().map(|(k, _)| k.as_str()).collect()
}

#[test]
fn a_burst_is_one_transaction() {
    let mut writer = Writer::new();
    assert!(writer.waits());
    for key in ["a", "b", "c"] {
        let step = writer.take(put(key));
        assert!(step.commit.is_empty() && !step.sweep && !step.stop);
        assert!(!writer.waits());
    }
    let step = writer.take(None);
    assert_eq!(keys(&step.commit), ["a", "b", "c"]);
    assert_eq!(step.commit[1].1, b"b".to_vec());
    assert!(!step.sweep && !step.stop);
    assert!(writer.waits());
}

#[test]
fn a_full_batch_is_committed_at_once() {
    let mut writer = Writer::new();
    for i in 0..511 {
        assert!(writer.take(put(&format!("k{i}"))).commit.is_empty());
    }
    let step = writer.take(put("k511"));
    assert_eq!(step.commit.len(), 512);
    assert_eq!(step.commit[0].0, "k0");
    assert_eq!(step.commit[511].0, "k511");
    assert!(writer.waits());
}

#[test]
fn a_sweep_sees_what_was_queued_before_it() {
    let mut writer = Writer::new();
    writer.take(put("a"));
    let step = writer.take(Some(Msg::Sweep));
    assert_eq!(keys(&step.commit), ["a"]);
    assert!(step.sweep && !step.stop);
    // The queue is still being drained.
    assert!(!writer.waits());
    let step = writer.take(None);
    assert!(step.commit.is_empty() && !step.sweep && !step.stop);
    assert!(writer.waits());

    let step = writer.take(Some(Msg::Sweep));
    assert!(step.commit.is_empty() && step.sweep && !step.stop);
    assert!(writer.waits());
}

#[test]
fn a_stop_commits_what_is_pending() {
    let mut writer = Writer::new();
    writer.take(put("a"));
    let step = writer.take(Some(Msg::Shutdown));
    assert_eq!(keys(&step.commit), ["a"]);
    assert!(step.stop && !step.sweep);

    // A queue that nobody can fill any more.
    let mut writer = Writer::new();
    let step = writer.take(None);
    assert!(step.commit.is_empty() && step.stop);
}

#[test]
fn nothing_happens_after_a_stop() {
    let mut writer = Writer::new();
    writer.take(put("a"));
    assert!(writer.take(Some(Msg::Shutdown)).stop);
    for msg in [
        put("b"),
        Some(Msg::Sweep),
        Some(Msg::Shutdown),
        put("c"),
        None,
    ] {
        let step = writer.take(msg);
        assert!(step.commit.is_empty() && !step.sweep && step.stop);
    }
}

#[test]
fn writes_and_sweeps_take_effect_in_order() {
    let mut store = Store::open(0);
    store.put("k", "stale", 0);
    store.put("gone", "stale", 0);
    store.sweep();
    store.put("k", "fresh", 600);
    store.put("late", "stale", 0);

    let store = store.restart();
    // Swept before it was written again, and written after the sweep.
    assert_eq!(store.get("k").unwrap().0, "fresh");
    assert!(store.get("gone").is_none());
    assert_eq!(store.len(), 2);
}

#[test]
fn a_pass_stops_when_it_has_enough() {
    let mut scan = ExpiryScan::new(10);
    for i in 0..4095 {
        assert!(!scan.visit(&format!("k{i:05}"), Some(10)));
    }
    assert!(!scan.visit("kept", Some(11)));
    assert!(!scan.visit("unreadable", None));
    assert!(scan.visit("last", Some(0)));
    let (expired, next) = scan.finish();
    assert_eq!(expired.len(), 4096);
    assert_eq!(expired[4095], "last");
    assert_eq!(next.as_deref(), Some("last"));

    let mut scan = ExpiryScan::new(10);
    for _ in 0..99_999 {
        assert!(!scan.visit("k", Some(11)));
    }
    assert!(scan.visit("end", Some(11)));
    let (expired, next) = scan.finish();
    assert!(expired.is_empty());
    assert_eq!(next.as_deref(), Some("end"));
}

#[test]
fn a_pass_that_ends_with_the_table_resumes_nowhere() {
    let mut scan = ExpiryScan::new(10);
    assert!(!scan.visit("a", Some(10)));
    assert!(!scan.visit("b", Some(11)));
    let (expired, next) = scan.finish();
    assert_eq!(expired, ["a"]);
    assert_eq!(next, None);
    assert_eq!(ExpiryScan::new(10).finish(), (Vec::new(), None));
}

#[test]
fn a_sweep_goes_on_until_the_table_ends() {
    let (mut sweep, step) = Sweep::new();
    assert!(matches!(step, SweepStep::Scan(None)));
    let step = sweep.scanned(vec!["a".into(), "b".into()], Some("b".into()));
    assert!(matches!(step, SweepStep::Delete(keys) if keys == ["a", "b"]));
    let step = sweep.deleted();
    assert!(matches!(step, SweepStep::Scan(Some(after)) if after == "b"));
    let step = sweep.scanned(Vec::new(), Some("m".into()));
    assert!(matches!(step, SweepStep::Scan(Some(after)) if after == "m"));
    let step = sweep.scanned(vec!["z".into()], None);
    assert!(matches!(step, SweepStep::Delete(_)));
    assert!(matches!(sweep.deleted(), SweepStep::Finish(3)));

    let (mut sweep, _) = Sweep::new();
    assert!(matches!(sweep.scanned(Vec::new(), None), SweepStep::Finish(0)));
}

#[test]
fn a_sweep_of_many_passes_finds_every_expired_row() {
    let mut store = Store::open(0);
    for i in 0..9000 {
        let ttl = if i % 3 == 0 { 600 } else { 0 };
        store.put(&format!("k{i:05}"), "v", ttl);
    }
    let mut store = store.restart();
    assert_eq!(store.run_sweep(), 6000);
    assert_eq!(store.len(), 3000);
    assert!(store.get("k00000").is_some());
    assert!(store.get("k00001").is_none());
    assert!(store.get("k08997").is_some());
    assert_eq!(store.run_sweep(), 0);
}

#[test]
fn the_excess_is_what_is_over_the_cap_and_bounded() {
    assert_eq!(excess(100, 0), None);
    assert_eq!(excess(10, 10), None);
    assert_eq!(excess(9, 10), None);
    assert_eq!(excess(11, 10), Some(1));
    assert_eq!(excess(50_010, 10), Some(50_000));
    assert_eq!(excess(50_009, 10), Some(49_999));
    assert_eq!(excess(u64::MAX, 1), Some(50_000));
}

#[test]
fn the_soonest_to_expire_are_picked() {
    // A pseudo-random order, with ties.
    let mut rows = Vec::new();
    let mut x: u64 = 12345;
    for i in 0..500 {
        x = x.wrapping_mul(6364136223846793005).wrapping_add(1442695040888963407);
        rows.push((x >> 58, format!("k{i:03}")));
    }
    for limit in [0, 1, 2, 17, 499, 500, 501] {
        let mut victims = Victims::new(limit);
        for (expiry, key) in &rows {
            victims.visit(key, Some(*expiry));
            victims.visit("unreadable", None);
        }
        let mut picked = victims.finish();
        picked.sort();

        let mut expected = rows.clone();
        expected.sort();
        expected.truncate(limit);
        let mut expected: Vec<String> = expected.into_iter().map(|(_, k)| k).collect();
        expected.sort();
        assert_eq!(picked, expected, "for {limit}");
    }
}

#[test]
fn keys_are_deleted_in_bounded_batches() {
    assert!(batches(Vec::new()).is_empty());
    for n in [1usize, 4095, 4096, 4097, 8192, 10_000] {
        let keys: Vec<String> = (0..n).map(|i| format!("k{i}")).collect();
        let cut = batches(keys.clone());
        assert_eq!(cut.len(), n.div_ceil(4096));
        assert!(cut.iter().all(|b| !b.is_empty() && b.len() <= 4096));
        assert_eq!(cut.concat(), keys);
    }
}
