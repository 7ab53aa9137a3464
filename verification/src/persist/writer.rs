//! Batching writes onto one background thread.
//!
//! Each write is about 0.4KB and arrives on a cache miss, so committing per
//! entry would fsync once per upstream fetch to save work that a crash makes us
//! redo anyway.
use vstd::prelude::*;

verus! {

/// How many queued writes are folded into one transaction.
pub const BATCH: usize = 512;

/// What the writer is asked to do.
pub enum Msg {
    /// Store these bytes under this key.
    Put(String, Vec<u8>),
    /// Delete everything expired. Nothing else removes entries, so without this
    /// the file only grows.
    Sweep,
    /// Write what is queued, and stop.
    Shutdown,
}

/// What a [`Msg`] asks for.
pub enum Request {
    Put(Write),
    Sweep,
    Shutdown,
}

/// A key and the bytes stored under it.
pub struct Write {
    pub key: Seq<char>,
    pub bytes: Seq<u8>,
}

/// What a batch of writes says.
pub open spec fn writes(batch: Seq<(String, Vec<u8>)>) -> Seq<Write> {
    batch.map_values(|w: (String, Vec<u8>)| Write { key: w.0@, bytes: w.1@ })
}

impl View for Msg {
    type V = Request;

    open spec fn view(&self) -> Request {
        match self {
            Msg::Put(key, bytes) => Request::Put(Write { key: key@, bytes: bytes@ }),
            Msg::Sweep => Request::Sweep,
            Msg::Shutdown => Request::Shutdown,
        }
    }
}

/// What the queue handed out: a request, or nothing, because it is empty or
/// everyone who could fill it is gone.
pub open spec fn request_of(msg: Option<Msg>) -> Option<Request> {
    match msg {
        Some(m) => Some(m@),
        None => None,
    }
}

/// The writer between two messages.
pub struct Writer {
    pending: Vec<(String, Vec<u8>)>,
    draining: bool,
    stopped: bool,
}

/// What a [`Writer`] holds.
#[verifier::ext_equal]
pub struct Batch {
    /// Writes taken from the queue and not yet committed.
    pub pending: Seq<Write>,
    /// Whether the batch is still being filled from what is already queued.
    pub draining: bool,
    /// Whether the writer has stopped. What comes after is not looked at.
    pub stopped: bool,
}

/// What is to be done, in this order: commit these writes, sweep, stop.
pub struct Step {
    pub commit: Vec<(String, Vec<u8>)>,
    pub sweep: bool,
    pub stop: bool,
}

/// What a [`Step`] does.
#[verifier::ext_equal]
pub struct Work {
    pub commit: Seq<Write>,
    pub sweep: bool,
    pub stop: bool,
}

impl View for Writer {
    type V = Batch;

    closed spec fn view(&self) -> Batch {
        Batch { pending: writes(self.pending@), draining: self.draining, stopped: self.stopped }
    }
}

impl View for Step {
    type V = Work;

    open spec fn view(&self) -> Work {
        Work { commit: writes(self.commit@), sweep: self.sweep, stop: self.stop }
    }
}

impl Batch {
    /// A batch that is not being filled is empty, and one that is has room. A
    /// writer that has stopped fills none.
    pub open spec fn wf(self) -> bool {
        &&& !self.draining ==> self.pending.len() == 0
        &&& self.draining ==> self.pending.len() < BATCH
        &&& self.stopped ==> !self.draining
    }

    /// A writer with nothing to write.
    pub open spec fn idle() -> Batch {
        Batch { pending: Seq::empty(), draining: false, stopped: false }
    }

    /// A writer that has stopped.
    pub open spec fn over() -> Batch {
        Batch { pending: Seq::empty(), draining: false, stopped: true }
    }

    /// The writer after a message, and what it does.
    ///
    /// A write starts a batch or joins it, and the batch is committed when it
    /// is full or the queue is empty, so a burst of misses costs one
    /// transaction rather than one each. A sweep or a stop commits first. Once
    /// stopped, nothing is done any more.
    pub open spec fn step(self, request: Option<Request>) -> (Batch, Work) {
        let nothing = Seq::<Write>::empty();
        if self.stopped {
            (self, Work { commit: nothing, sweep: false, stop: true })
        } else {
            match request {
                Some(Request::Put(w)) => {
                    let grown = self.pending.push(w);
                    if grown.len() < BATCH {
                        (
                            Batch { pending: grown, draining: true, stopped: false },
                            Work { commit: nothing, sweep: false, stop: false },
                        )
                    } else {
                        (Batch::idle(), Work { commit: grown, sweep: false, stop: false })
                    }
                },
                Some(Request::Sweep) => (
                    Batch { pending: nothing, draining: self.draining, stopped: false },
                    Work { commit: self.pending, sweep: true, stop: false },
                ),
                Some(Request::Shutdown) => (
                    Batch::over(),
                    Work { commit: self.pending, sweep: false, stop: true },
                ),
                None => if self.draining {
                    (Batch::idle(), Work { commit: self.pending, sweep: false, stop: false })
                } else {
                    (Batch::over(), Work { commit: self.pending, sweep: false, stop: true })
                },
            }
        }
    }
}

impl Writer {
    /// A writer with nothing to write.
    pub fn new() -> (r: Self)
        ensures
            r@ == Batch::idle(),
    {
        let r = Writer { pending: Vec::new(), draining: false, stopped: false };
        assert(r@ =~= Batch::idle());
        r
    }

    /// Whether to wait for the next message, or only to take one that is
    /// already queued.
    pub fn waits(&self) -> (r: bool)
        ensures
            r == !self@.draining,
    {
        !self.draining
    }

    fn hand_over(&mut self) -> (r: Vec<(String, Vec<u8>)>)
        ensures
            writes(r@) == old(self)@.pending,
            final(self)@.pending == Seq::<Write>::empty(),
            final(self)@.draining == old(self)@.draining,
            final(self)@.stopped == old(self)@.stopped,
    {
        let mut out: Vec<(String, Vec<u8>)> = Vec::new();
        std::mem::swap(&mut out, &mut self.pending);
        assert(writes(self.pending@) =~= Seq::<Write>::empty());
        out
    }

    /// Takes the next message, or the news that there is none.
    pub fn take(&mut self, msg: Option<Msg>) -> (r: Step)
        requires
            old(self)@.wf(),
        ensures
            final(self)@.wf(),
            final(self)@ == old(self)@.step(request_of(msg)).0,
            r@ == old(self)@.step(request_of(msg)).1,
    {
        let ghost was = self@;
        let ghost asked = request_of(msg);
        if self.stopped {
            let r = Step { commit: Vec::new(), sweep: false, stop: true };
            assert(r@ =~= was.step(asked).1);
            return r;
        }
        match msg {
            Some(Msg::Put(key, bytes)) => {
                let ghost before = self.pending@;
                self.pending.push((key, bytes));
                assert(writes(self.pending@) =~= was.pending.push(Write { key: key@, bytes: bytes@ }));
                if self.pending.len() < BATCH {
                    self.draining = true;
                    let r = Step { commit: Vec::new(), sweep: false, stop: false };
                    assert(r@ =~= was.step(asked).1);
                    r
                } else {
                    self.draining = false;
                    let commit = self.hand_over();
                    Step { commit, sweep: false, stop: false }
                }
            },
            Some(Msg::Sweep) => {
                let commit = self.hand_over();
                Step { commit, sweep: true, stop: false }
            },
            Some(Msg::Shutdown) => {
                let commit = self.hand_over();
                self.draining = false;
                self.stopped = true;
                Step { commit, sweep: false, stop: true }
            },
            None => {
                let stop = !self.draining;
                let commit = self.hand_over();
                self.draining = false;
                self.stopped = stop;
                Step { commit, sweep: false, stop }
            },
        }
    }
}

/// The writer after a run of messages.
pub open spec fn after(requests: Seq<Option<Request>>) -> Batch
    decreases requests.len(),
{
    if requests.len() == 0 {
        Batch::idle()
    } else {
        after(requests.drop_last()).step(requests.last()).0
    }
}

/// What the last of a run of messages has the writer do.
pub open spec fn last_work(requests: Seq<Option<Request>>) -> Work {
    after(requests.drop_last()).step(requests.last()).1
}

/// The writes asked for in a run of messages before the writer stopped, in
/// order.
pub open spec fn asked(requests: Seq<Option<Request>>) -> Seq<Write>
    decreases requests.len(),
{
    if requests.len() == 0 {
        Seq::empty()
    } else {
        match requests.last() {
            Some(Request::Put(w)) if !after(requests.drop_last()).stopped => asked(
                requests.drop_last(),
            ).push(w),
            _ => asked(requests.drop_last()),
        }
    }
}

/// The writes committed over a run of messages, in order.
pub open spec fn committed(requests: Seq<Option<Request>>) -> Seq<Write>
    decreases requests.len(),
{
    if requests.len() == 0 {
        Seq::empty()
    } else {
        committed(requests.drop_last()) + last_work(requests).commit
    }
}

/// How many sweeps are done over a run of messages.
pub open spec fn sweeps(requests: Seq<Option<Request>>) -> nat
    decreases requests.len(),
{
    if requests.len() == 0 {
        0
    } else {
        sweeps(requests.drop_last()) + if last_work(requests).sweep {
            1nat
        } else {
            0
        }
    }
}

/// At every moment each write asked for is either committed or pending, once,
/// in the order it was asked for.
pub proof fn law_no_write_is_lost(requests: Seq<Option<Request>>)
    ensures
        asked(requests) == committed(requests) + after(requests).pending,
        after(requests).wf(),
    decreases requests.len(),
{
    if requests.len() > 0 {
        let init = requests.drop_last();
        law_no_write_is_lost(init);
        let done = committed(init);
        let batch = after(init);
        match requests.last() {
            Some(Request::Put(w)) => {
                assert(done + batch.pending.push(w) =~= (done + batch.pending).push(w));
                assert(committed(requests) + after(requests).pending =~= asked(requests));
            },
            _ => {
                assert(committed(requests) + after(requests).pending =~= asked(requests));
            },
        }
    } else {
        assert(asked(requests) =~= committed(requests) + after(requests).pending);
    }
}

/// When the writer stops, and before it sweeps, everything asked for by then is
/// committed.
pub proof fn law_a_stop_drains_the_queue(requests: Seq<Option<Request>>)
    requires
        requests.len() > 0,
        last_work(requests).stop || last_work(requests).sweep,
    ensures
        committed(requests) == asked(requests),
{
    law_no_write_is_lost(requests.drop_last());
    law_no_write_is_lost(requests);
    assert(committed(requests) + after(requests).pending =~= committed(requests));
}

/// A writer that is told to stop has stopped, and so has one whose queue nobody
/// can fill any more.
pub proof fn law_a_shutdown_stops(requests: Seq<Option<Request>>)
    requires
        requests.len() > 0,
    ensures
        requests.last() == Some(Request::Shutdown) ==> after(requests).stopped,
        requests.last() is None && !after(requests.drop_last()).draining ==> after(requests).stopped,
        after(requests).stopped <==> last_work(requests).stop,
{
}

/// Once the writer has stopped nothing has an effect: whatever is asked for
/// after that, another stop among it, nothing is committed, nothing is swept
/// and the writer stays as it is. So a table that held every write asked for
/// before the stop, the later of two under one key, goes on holding just those.
pub proof fn law_nothing_happens_after_a_stop(
    requests: Seq<Option<Request>>,
    more: Seq<Option<Request>>,
    table: Map<Seq<char>, Seq<u8>>,
)
    requires
        after(requests).stopped,
    ensures
        after(requests + more) == after(requests),
        committed(requests + more) == committed(requests),
        sweeps(requests + more) == sweeps(requests),
        asked(requests + more) == asked(requests),
        table_after(table, committed(requests + more)) == table_after(table, asked(requests)),
    decreases more.len(),
{
    if more.len() == 0 {
        assert(requests + more =~= requests);
        law_no_write_is_lost(requests);
        assert(asked(requests) =~= committed(requests));
    } else {
        let all = requests + more;
        law_nothing_happens_after_a_stop(requests, more.drop_last(), table);
        assert(all.drop_last() =~= requests + more.drop_last());
        assert(committed(all) =~= committed(requests));
    }
}

/// No transaction holds more than a batch of writes.
pub proof fn law_a_transaction_is_bounded(requests: Seq<Option<Request>>)
    requires
        requests.len() > 0,
    ensures
        last_work(requests).commit.len() <= BATCH,
{
    law_no_write_is_lost(requests.drop_last());
}

/// A table after writes, each of which replaces what stood under its key.
pub open spec fn table_after(
    table: Map<Seq<char>, Seq<u8>>,
    list: Seq<Write>,
) -> Map<Seq<char>, Seq<u8>>
    decreases list.len(),
{
    if list.len() == 0 {
        table
    } else {
        table_after(table, list.drop_last()).insert(list.last().key, list.last().bytes)
    }
}

/// How writes are cut into batches cannot be told from the table.
pub proof fn law_batching_is_invisible(
    table: Map<Seq<char>, Seq<u8>>,
    first: Seq<Write>,
    second: Seq<Write>,
)
    ensures
        table_after(table, first + second) == table_after(table_after(table, first), second),
    decreases second.len(),
{
    if second.len() == 0 {
        assert(first + second =~= first);
    } else {
        law_batching_is_invisible(table, first, second.drop_last());
        assert((first + second).drop_last() =~= first + second.drop_last());
    }
}

/// Of several writes under one key the last one stands.
pub proof fn law_a_repeated_key_keeps_the_later_value(
    table: Map<Seq<char>, Seq<u8>>,
    list: Seq<Write>,
    i: int,
)
    requires
        0 <= i < list.len(),
        forall|j: int| i < j < list.len() ==> (#[trigger] list[j]).key != list[i].key,
    ensures
        table_after(table, list).contains_key(list[i].key),
        table_after(table, list)[list[i].key] == list[i].bytes,
    decreases list.len(),
{
    if i < list.len() - 1 {
        let init = list.drop_last();
        assert forall|j: int| i < j < init.len() implies (#[trigger] init[j]).key != init[i].key by {
            assert(init[j] == list[j]);
        }
        law_a_repeated_key_keeps_the_later_value(table, init, i);
        assert(list[list.len() - 1].key != list[i].key);
    }
}

/// A table after the work that a run of messages has the writer do, where
/// `sweep` gives what a sweep leaves of a table.
pub open spec fn written(
    table: Map<Seq<char>, Seq<u8>>,
    requests: Seq<Option<Request>>,
    sweep: spec_fn(Map<Seq<char>, Seq<u8>>) -> Map<Seq<char>, Seq<u8>>,
) -> Map<Seq<char>, Seq<u8>>
    decreases requests.len(),
{
    if requests.len() == 0 {
        table
    } else {
        let work = last_work(requests);
        let grown = table_after(written(table, requests.drop_last(), sweep), work.commit);
        if work.sweep {
            sweep(grown)
        } else {
            grown
        }
    }
}

/// A table after a run of messages, each done at once, and none after a stop.
pub open spec fn applied(
    table: Map<Seq<char>, Seq<u8>>,
    requests: Seq<Option<Request>>,
    sweep: spec_fn(Map<Seq<char>, Seq<u8>>) -> Map<Seq<char>, Seq<u8>>,
) -> Map<Seq<char>, Seq<u8>>
    decreases requests.len(),
{
    if requests.len() == 0 {
        table
    } else {
        let before = applied(table, requests.drop_last(), sweep);
        if after(requests.drop_last()).stopped {
            before
        } else {
            match requests.last() {
                Some(Request::Put(w)) => before.insert(w.key, w.bytes),
                Some(Request::Sweep) => sweep(before),
                _ => before,
            }
        }
    }
}

/// Writes and sweeps reach the table in the order they were asked for: what it
/// holds, with what is pending written to it, is what it would hold if every
/// message had been done at once; and once the writer has stopped, it holds
/// just that.
pub proof fn law_messages_take_effect_in_order(
    table: Map<Seq<char>, Seq<u8>>,
    requests: Seq<Option<Request>>,
    sweep: spec_fn(Map<Seq<char>, Seq<u8>>) -> Map<Seq<char>, Seq<u8>>,
)
    ensures
        table_after(written(table, requests, sweep), after(requests).pending) == applied(
            table,
            requests,
            sweep,
        ),
        after(requests).stopped ==> written(table, requests, sweep) == applied(
            table,
            requests,
            sweep,
        ),
    decreases requests.len(),
{
    law_no_write_is_lost(requests);
    if requests.len() > 0 {
        let init = requests.drop_last();
        law_messages_take_effect_in_order(table, init, sweep);
        law_no_write_is_lost(init);
        let pending = after(init).pending;
        if let Some(Request::Put(w)) = requests.last() {
            assert(pending.push(w).drop_last() =~= pending);
        }
    }
}

/// What one message does to a writer that has not stopped. A write waits for
/// more until there are five hundred and twelve, and they then go together; an
/// empty queue, a sweep and a stop each send what waits. Only a sweep sweeps,
/// and only a stop, or a queue that nobody can fill, stops.
pub proof fn law_what_a_message_does(requests: Seq<Option<Request>>, request: Option<Request>)
    requires
        !after(requests).stopped,
    ensures
        ({
            let more = requests.push(request);
            let waiting = after(requests).pending;
            let work = last_work(more);
            match request {
                Some(Request::Put(w)) => {
                    &&& waiting.len() < 511 ==> work.commit.len() == 0 && after(more).pending
                        == waiting.push(w)
                    &&& waiting.len() == 511 ==> work.commit == waiting.push(w)
                        && after(more).pending.len() == 0
                    &&& !work.sweep && !work.stop
                },
                Some(Request::Sweep) => work.commit == waiting && after(more).pending.len() == 0
                    && work.sweep && !work.stop,
                Some(Request::Shutdown) => work.commit == waiting && !work.sweep && work.stop,
                None => work.commit == waiting && after(more).pending.len() == 0 && !work.sweep && (
                work.stop <==> !after(requests).draining),
            }
        }),
        after(requests).pending.len() <= 511,
        after(requests).pending.len() > 0 ==> after(requests).draining,
{
    assert(requests.push(request).drop_last() =~= requests);
    law_no_write_is_lost(requests);
}

/// The queue is being drained from a write on, until it is found empty, the
/// batch is full or the writer stops.
pub proof fn law_when_the_queue_is_drained(requests: Seq<Option<Request>>, request: Option<Request>)
    requires
        !after(requests).stopped,
    ensures
        ({
            let more = requests.push(request);
            match request {
                Some(Request::Put(_)) => after(more).draining <==> after(requests).pending.len()
                    < 511,
                Some(Request::Sweep) => after(more).draining == after(requests).draining,
                _ => !after(more).draining,
            }
        }),
{
    assert(requests.push(request).drop_last() =~= requests);
    law_no_write_is_lost(requests);
}

} // verus!
