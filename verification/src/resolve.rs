//! What a resolve comes to: disk first, upstream if it is not there.
use std::time::Duration;
use vstd::prelude::*;

use crate::cache::Cache;
use crate::client::Answer;
use crate::definition::Definition;
use crate::fault::FetchError;
use crate::reply::{Failure, Shared, Source};
use crate::stats::Counter;
use crate::cache::{hit, stored, Held};
use crate::client::answer_view;
use crate::fault::Fault;
use crate::reply::{outcome_of, Outcome};
use crate::time::{since, span_nanos, spare_nanos, whole_secs, LONGEST};

verus! {

/// Seconds that a harvested definition is held. It changes only when someone
/// curates it, and the coordinate itself is immutable. Long, but not forever.
pub const TTL_HARVESTED: u64 = 30 * 24 * 3600;

/// Seconds that an unharvested one is. An unharvested coordinate is "not looked
/// at yet", not "no licence". It will change, so it must expire soon enough to
/// pick that up.
pub const TTL_UNHARVESTED: u64 = 6 * 3600;

/// Seconds that a definition is held when it comes from upstream.
pub open spec fn lifetime(harvested: bool) -> u64 {
    if harvested {
        TTL_HARVESTED
    } else {
        TTL_UNHARVESTED
    }
}

/// Whether a span is that many seconds.
pub open spec fn is_seconds(span: Duration, secs: u64) -> bool {
    whole_secs(span) == secs && spare_nanos(span) == 0
}

/// What a resolve came to, and what is to be done about it.
pub struct Verdict {
    /// What is counted.
    pub counted: Option<Counter>,
    /// How long memory is to hold the definition, if it is.
    pub remember: Option<Duration>,
    /// How long disk is.
    pub persist: Option<Duration>,
    /// What everyone waiting is told.
    pub outcome: Shared,
}

/// What a look at the disk leads to.
pub enum Looked {
    /// The resolve is over.
    Found(Verdict),
    /// Upstream is to be asked.
    Missing(Counter),
}

/// Judges what the disk holds of a key.
///
/// A definition found there is promoted, with the TTL it has left rather than a
/// fresh one: the disk copy expires when it was always going to.
pub fn look(found: Option<(Definition, Duration)>) -> (r: Looked)
    ensures
        match found {
            Some((def, left)) => r matches Looked::Found(verdict) && verdict.counted == Some(
                Counter::DiskHits,
            ) && verdict.remember == Some(left) && verdict.persist is None && outcome_of(
                verdict.outcome,
            ) == Outcome::Found(def@, left, Source::Disk),
            None => r == Looked::Missing(Counter::Misses),
        },
{
    match found {
        Some((def, left)) => Looked::Found(
            Verdict {
                counted: Some(Counter::DiskHits),
                remember: Some(left),
                persist: None,
                outcome: Ok((def, left, Source::Disk)),
            },
        ),
        None => Looked::Missing(Counter::Misses),
    }
}

/// The status that a failed fetch is reported with.
///
/// Where upstream answered definitively this is not a retry-me. 404 passes as
/// 404 and everything else as 502: a client that retries on 5xx would otherwise
/// loop forever on a coordinate upstream will always reject, since nothing is
/// cached and every retry is a fresh fetch. Where the failure is transient, and
/// already retried, 504 is honest: asking again may well work.
pub open spec fn failure_status(fault: Fault) -> u16 {
    match fault {
        Fault::Upstream(code) => if code == 404 {
            404
        } else {
            502
        },
        _ => 504,
    }
}

/// Judges what upstream answered.
///
/// Only a definition is ever held: persisting a stall as "no data" is the
/// failure this service exists to prevent.
pub fn judge(answer: Answer) -> (r: Verdict)
    ensures
        match answer_view(answer) {
            Ok(def) => {
                &&& r.counted is None
                &&& r.remember matches Some(ttl) && is_seconds(ttl, lifetime(def.harvested))
                    && r.persist == Some(ttl) && outcome_of(r.outcome) == Outcome::Found(
                    def,
                    ttl,
                    Source::Upstream,
                )
            },
            Err(fault) => {
                &&& r.counted == Some(Counter::UpstreamErrors)
                &&& r.remember is None
                &&& r.persist is None
                &&& outcome_of(r.outcome) == Outcome::Failed(failure_status(fault), fault.words())
            },
        },
{
    match answer {
        Ok(def) => {
            let secs: u64 = if def.harvested {
                TTL_HARVESTED
            } else {
                TTL_UNHARVESTED
            };
            let ttl = Duration::new(secs, 0);
            Verdict {
                counted: None,
                remember: Some(ttl),
                persist: Some(ttl),
                outcome: Ok((def, ttl, Source::Upstream)),
            }
        },
        Err(e) => {
            let status: u16 = match &e {
                FetchError::Upstream(code) => if *code == 404 {
                    404
                } else {
                    502
                },
                _ => 504,
            };
            Verdict {
                counted: Some(Counter::UpstreamErrors),
                remember: None,
                persist: None,
                outcome: Err(Failure { status, message: e.to_string() }),
            }
        },
    }
}

/// Whether a verdict has memory hold something.
pub open spec fn remembers(verdict: Verdict) -> bool {
    verdict.remember is Some && verdict.outcome is Ok
}

/// Puts into memory what a verdict says it is to hold, which is nothing where
/// there was no definition.
pub fn remember(cache: &mut Cache<Definition>, key: String, verdict: &Verdict)
    requires
        old(cache).wf(),
    ensures
        final(cache).wf(),
        final(cache).limit() == old(cache).limit(),
        final(cache).clock() == old(cache).clock(),
        !remembers(*verdict) ==> final(cache)@ == old(cache)@,
        remembers(*verdict) ==> exists|past: Duration, kept: Definition| #[trigger]
            since(old(cache).clock(), past) && span_nanos(past) <= LONGEST && #[trigger] kept@
                == verdict.outcome->Ok_0.0@ && final(cache)@ == stored(
                old(cache)@,
                old(cache).limit(),
                key@,
                kept,
                (span_nanos(past) + span_nanos(verdict.remember->0)) as u128,
                span_nanos(past) as u128,
            ),
{
    if let Some(ttl) = verdict.remember {
        if let Ok((def, _, _)) = &verdict.outcome {
            let kept = def.clone();
            cache.insert(key, kept, ttl);
        }
    }
}

impl Verdict {
    /// What disk is to hold, and for how long, if there is anything to.
    pub fn to_persist(&self) -> (r: Option<(&Definition, Duration)>)
        ensures
            match r {
                Some((def, ttl)) => self.persist == Some(ttl) && self.outcome is Ok && *def
                    == self.outcome->Ok_0.0,
                None => self.persist is None || self.outcome is Err,
            },
    {
        match (&self.outcome, self.persist) {
            (Ok((def, _, _)), Some(ttl)) => Some((def, ttl)),
            _ => None,
        }
    }
}

/// A definition that a resolve puts into memory is there for every request
/// until its time is up, whether or not anyone waited for the resolve, and with
/// exactly the life it was given less the time that has passed.
pub proof fn law_a_retry_is_served_from_memory(
    held: Seq<Held<Definition>>,
    capacity: nat,
    key: Seq<char>,
    kept: Definition,
    ttl: Duration,
    now: u128,
    later: u128,
)
    requires
        now <= LONGEST,
        span_nanos(ttl) <= LONGEST,
        now <= later < now + span_nanos(ttl),
    ensures
        ({
            let after = stored(held, capacity, key, kept, (now + span_nanos(ttl)) as u128, now);
            hit(after, key, later) matches Some(e) && e.value == kept && e.expires_at - later
                == span_nanos(ttl) - (later - now)
        }),
{
    crate::cache::law_a_read_gives_back_the_write(
        held,
        capacity,
        key,
        kept,
        (now + span_nanos(ttl)) as u128,
        now,
        later,
    );
}

/// Nothing but a definition is ever held, in memory or on disk: a fetch that
/// failed leaves both as they were.
pub proof fn law_nothing_transient_is_held(verdict: Verdict, answer: Answer)
    requires
        answer is Err,
        call_ensures(judge, (answer,), verdict),
    ensures
        !remembers(verdict),
        verdict.persist is None,
{
}

/// What upstream rejects is never reported as a timeout, and a timeout is never
/// reported as a rejection.
pub proof fn law_a_rejection_is_not_a_timeout(fault: Fault)
    ensures
        failure_status(fault) == 504 <==> !(fault is Upstream),
        failure_status(fault) == 404 <==> fault == Fault::Upstream(404),
{
}

/// What upstream gave is held in memory and on disk alike, for thirty days where
/// something looked at it and for six hours where nothing has, and is handed out
/// with just that long to live.
pub proof fn law_the_ttl_follows_the_harvest(answer: Answer, r: Verdict, def: Definition)
    requires
        call_ensures(judge, (answer,), r),
        answer == Ok::<Definition, FetchError>(def),
    ensures
        r.counted is None,
        r.remember == r.persist,
        r.remember matches Some(ttl) && spare_nanos(ttl) == 0 && whole_secs(ttl) == if def.harvested {
            2_592_000int
        } else {
            21_600int
        },
        r.outcome matches Ok((d, ttl, source)) && d@ == def@ && r.remember == Some(ttl) && source
            == Source::Upstream,
        remembers(r),
{
}

/// A fetch that failed is counted, held nowhere, and told in its own words: with
/// 404 where upstream has no such thing, with 502 where it refused in another
/// way, and with 504 where asking again may work.
pub proof fn law_a_failure_is_told_as_it_was(answer: Answer, r: Verdict, e: FetchError, words: String)
    requires
        call_ensures(judge, (answer,), r),
        answer == Err::<Definition, FetchError>(e),
        call_ensures(FetchError::to_string, (&e,), words),
    ensures
        r.counted == Some(Counter::UpstreamErrors),
        r.remember is None && r.persist is None,
        !remembers(r),
        r.outcome matches Err(failure) && failure.message@ == words@ && failure.status == match e {
            FetchError::Upstream(404) => 404,
            FetchError::Upstream(_) => 502,
            FetchError::Transient(_) => 504,
            FetchError::Rejected(_) => 504int,
        },
{
}

/// What disk holds ends the resolve: it is put into memory for just as long as
/// it has left, is not written back, and counts as served from disk. Where disk
/// holds nothing, upstream is asked, and that counts as a miss.
pub proof fn law_disk_is_asked_first(found: Option<(Definition, Duration)>, r: Looked)
    requires
        call_ensures(look, (found,), r),
    ensures
        match (found, r) {
            (Some((def, left)), Looked::Found(v)) => {
                &&& v.counted == Some(Counter::DiskHits)
                &&& v.remember == Some(left)
                &&& v.persist is None
                &&& remembers(v)
                &&& v.outcome matches Ok((d, ttl, source)) && d@ == def@ && ttl == left && source
                    == Source::Disk
            },
            (None, Looked::Missing(counter)) => counter == Counter::Misses,
            _ => false,
        },
{
}

/// A verdict has memory hold something exactly where it names a time and came to
/// a definition.
pub proof fn law_only_definitions_are_remembered(verdict: Verdict)
    ensures
        remembers(verdict) <==> (verdict.remember matches Some(_) && verdict.outcome matches Ok(_)),
{
}

} // verus!
