//! What a request is answered.
use std::time::Duration;
use vstd::prelude::*;

use crate::coordinate::Coordinate;
use crate::definition::Definition;
use crate::stats::Counter;
use crate::text::push_decimal;
use crate::coordinate::{allowed_type, Place};
use crate::definition::Summary;
use crate::text::decimal;
use crate::config::parse_u64;
use crate::time::{span_nanos, whole_secs};

verus! {

/// Where an answer came from. Reported as `x-cache` so a CDN or an operator can
/// tell an evicted-but-cached coordinate from one that cost an upstream fetch.
#[derive(Debug, Clone, Copy, PartialEq, Eq, Structural)]
pub enum Source {
    Memory,
    Disk,
    Upstream,
}

impl Source {
    /// How `x-cache` spells it.
    pub open spec fn label(self) -> Seq<char> {
        match self {
            Source::Memory => "HIT"@,
            Source::Disk => "HIT-DISK"@,
            Source::Upstream => "MISS"@,
        }
    }

    pub fn as_str(self) -> (r: &'static str)
        ensures
            r@ == self.label(),
    {
        match self {
            Source::Memory => "HIT",
            Source::Disk => "HIT-DISK",
            Source::Upstream => "MISS",
        }
    }
}

/// A resolve that produced no definition, and the status it deserves.
///
/// Carried rather than flattened to one code: a coordinate upstream rejects is
/// not the same event as an upstream that stalled, and answering both with 504
/// tells a client with retry-on-5xx to keep asking for something that will
/// never exist. Nothing here is cached, so the retry is a fresh upstream fetch
/// every time.
#[derive(Debug)]
pub struct Failure {
    pub status: u16,
    pub message: String,
}

/// Result shared between everyone waiting on one in-flight resolve.
pub type Shared = Result<(Definition, Duration, Source), Failure>;

/// What a resolve came to.
pub enum Outcome {
    Found(Summary, Duration, Source),
    Failed(u16, Seq<char>),
}

/// What a [`Shared`] says.
pub open spec fn outcome_of(shared: Shared) -> Outcome {
    match shared {
        Ok((def, ttl, source)) => Outcome::Found(def@, ttl, source),
        Err(failure) => Outcome::Failed(failure.status, failure.message@),
    }
}

/// The content of a reply.
#[derive(Debug)]
pub enum Body {
    Definition(Definition),
    Error(String),
}

/// A reply: its status, its headers and its content.
#[derive(Debug)]
pub struct Reply {
    pub status: u16,
    pub cache_control: String,
    pub x_cache: Option<&'static str>,
    pub body: Body,
}

/// What the content of a reply says.
pub enum Content {
    Definition(Summary),
    Error(Seq<char>),
}

/// What a [`Reply`] says.
pub struct Message {
    pub status: u16,
    pub cache_control: Seq<char>,
    pub x_cache: Option<Seq<char>>,
    pub content: Content,
}

impl View for Reply {
    type V = Message;

    open spec fn view(&self) -> Message {
        Message {
            status: self.status,
            cache_control: self.cache_control@,
            x_cache: match self.x_cache {
                Some(label) => Some(label@),
                None => None,
            },
            content: match self.body {
                Body::Definition(def) => Content::Definition(def@),
                Body::Error(message) => Content::Error(message@),
            },
        }
    }
}

/// How long an answer may be held that has this many seconds to live.
pub open spec fn held_for(secs: nat) -> Seq<char> {
    "public, max-age="@ + decimal(secs) + ", stale-if-error=86400"@
}

/// A definition, served.
pub open spec fn served(def: Summary, remaining: Duration, source: Source) -> Message {
    Message {
        status: 200,
        cache_control: held_for(whole_secs(remaining) as nat),
        x_cache: Some(source.label()),
        content: Content::Definition(def),
    }
}

/// An error. Never cached: a stall cached at the edge would be the same silent
/// data loss, one layer further out.
pub open spec fn refused(status: u16, message: Seq<char>) -> Message {
    Message {
        status,
        cache_control: "no-store"@,
        x_cache: None,
        content: Content::Error(message),
    }
}

/// Serves a definition.
///
/// `remaining` is what the entry has left to live, not the TTL it started with.
/// The edge TTL follows the same split as the local one -- an unharvested answer
/// must not be pinned at a CDN for a month either -- but it has to shrink with
/// the entry. Re-arming the full constant on every hit would let a CDN hold an
/// entry for up to twice its intended life: an unharvested definition fetched
/// again at five hours fifty-nine would be served as "no licence" for another
/// six, long after upstream had harvested it.
pub fn serve(def: Definition, remaining: Duration, source: Source) -> (r: Reply)
    ensures
        r@ == served(def@, remaining, source),
{
    let mut cache_control = "public, max-age=".to_owned();
    push_decimal(&mut cache_control, remaining.as_secs());
    cache_control.append(", stale-if-error=86400");
    Reply {
        status: 200,
        cache_control,
        x_cache: Some(source.as_str()),
        body: Body::Definition(def),
    }
}

/// Answers with an error.
pub fn error(status: u16, message: &str) -> (r: Reply)
    ensures
        r@ == refused(status, message@),
{
    Reply {
        status,
        cache_control: "no-store".to_owned(),
        x_cache: None,
        body: Body::Error(message.to_owned()),
    }
}

/// Opens a request: the coordinate it names and the key that goes by, or what
/// it is answered where it names none that is forwarded.
pub fn open(
    kind: &str,
    provider: &str,
    namespace: &str,
    name: &str,
    revision: &str,
) -> (r: Result<(Coordinate, String), Reply>)
    ensures
        ({
            let place = Place {
                kind: kind@,
                provider: provider@,
                namespace: namespace@,
                name: name@,
                revision: revision@,
            };
            match r {
                Ok((coord, key)) => place.valid() && coord@ == place && key@ == place.key(),
                Err(reply) => !place.valid() && reply@ == refused(
                    400,
                    if allowed_type(kind@, provider@) {
                        "invalid coordinate segment"@
                    } else {
                        "unsupported type/provider"@
                    },
                ),
            }
        }),
{
    match Coordinate::parse(kind, provider, namespace, name, revision) {
        Ok(coord) => {
            let key = coord.cache_key();
            Ok((coord, key))
        },
        Err(e) => {
            let message = e.to_string();
            Err(error(400, message.as_str()))
        },
    }
}

/// What came of waiting for a resolve.
pub enum Waited<'a> {
    /// The request had waited long enough.
    TooLong,
    /// The resolve ended without saying anything.
    Ended,
    /// The resolve said this.
    Told(&'a Shared),
}

/// What is told a request that stops waiting.
pub open spec fn still_resolving() -> Seq<char> {
    "still resolving upstream; the fetch continues and a retry should be served from cache"@
}

/// What a request is answered that has waited, and what is counted.
///
/// The resolve is detached, and publishes to the cache whatever the request
/// does, so giving up on the wait costs the caller latency and nothing else.
pub fn answer(waited: Waited) -> (r: (Reply, Option<Counter>))
    ensures
        match waited {
            Waited::TooLong => r.0@ == refused(504, still_resolving()) && r.1 == Some(
                Counter::SlowResolves,
            ),
            Waited::Ended => r.0@ == refused(502, "resolve task ended unexpectedly"@) && r.1 is None,
            Waited::Told(shared) => r.1 is None && r.0@ == match outcome_of(*shared) {
                Outcome::Found(def, ttl, source) => served(def, ttl, source),
                Outcome::Failed(status, message) => refused(status, message),
            },
        },
{
    match waited {
        Waited::TooLong => (
            error(
                504,
                "still resolving upstream; the fetch continues and a retry should be served from cache",
            ),
            Some(Counter::SlowResolves),
        ),
        Waited::Ended => (error(502, "resolve task ended unexpectedly"), None),
        Waited::Told(shared) => match shared {
            Ok((def, ttl, source)) => (serve(def.clone(), *ttl, *source), None),
            Err(failure) => (error(failure.status, failure.message.as_str()), None),
        },
    }
}

/// What a request is answered from memory, and what is counted.
pub fn answer_hit(def: Definition, remaining: Duration) -> (r: (Reply, Counter))
    ensures
        r.0@ == served(def@, remaining, Source::Memory),
        r.1 == Counter::Hits,
{
    (serve(def, remaining, Source::Memory), Counter::Hits)
}

/// What a request is answered when the record of what is in flight is lost.
pub fn answer_poisoned() -> (r: Reply)
    ensures
        r@ == refused(500, "inflight lock poisoned"@),
{
    error(500, "inflight lock poisoned")
}

/// An answer served later from the same entry may be held for no longer, and
/// for strictly less once a second has passed: `max-age` counts down with the
/// entry and is never re-armed.
pub proof fn law_max_age_counts_down(sooner: Duration, later: Duration, passed: nat)
    requires
        span_nanos(later) + passed == span_nanos(sooner),
        spare_nanos_in_range(sooner),
        spare_nanos_in_range(later),
    ensures
        whole_secs(later) <= whole_secs(sooner),
        passed >= 1_000_000_000 ==> whole_secs(later) < whole_secs(sooner),
{
}

/// A span as the standard library holds it: less than a second beyond its whole
/// seconds.
pub open spec fn spare_nanos_in_range(span: Duration) -> bool {
    crate::time::spare_nanos(span) < 1_000_000_000
}

/// Whatever is served and wherever it came from, `max-age` is the whole seconds
/// that the entry has left, spelt in decimal, and nothing else in the header
/// varies. The status is 200, `x-cache` says where the answer came from, and the
/// content is the definition.
pub proof fn law_max_age_is_what_is_left(
    def: Definition,
    remaining: Duration,
    source: Source,
    r: Reply,
    text: &str,
    age: Option<u64>,
)
    requires
        call_ensures(serve, (def, remaining, source), r),
        call_ensures(parse_u64, (text,), age),
    ensures
        r.status == 200,
        r.cache_control@ == "public, max-age="@ + text@ + ", stale-if-error=86400"@ ==> age == Some(
            whole_secs(remaining),
        ),
        r.cache_control@ == "public, max-age="@ + decimal(whole_secs(remaining) as nat)
            + ", stale-if-error=86400"@,
        r.x_cache matches Some(label) && label@ == match source {
            Source::Memory => "HIT"@,
            Source::Disk => "HIT-DISK"@,
            Source::Upstream => "MISS"@,
        },
        r.body matches Body::Definition(d) && d@ == def@,
{
    let (head, tail) = ("public, max-age="@, ", stale-if-error=86400"@);
    let digits = decimal(whole_secs(remaining) as nat);
    if r.cache_control@ == head + text@ + tail {
        let whole = head + text@ + tail;
        assert(whole == head + digits + tail);
        assert(text@ =~= whole.subrange(head.len() as int, whole.len() - tail.len()));
        assert(digits =~= whole.subrange(head.len() as int, whole.len() - tail.len()));
        crate::config::law_a_number_reads_back(text, age, whole_secs(remaining));
    }
}

/// Two answers with the same whole seconds left carry the same `Cache-Control`,
/// whatever they say and wherever they came from; and of two that are read, the
/// one with less left never has the larger `max-age`.
pub proof fn law_max_age_depends_on_what_is_left_alone(
    one: (Definition, Duration, Source, Reply, &str, Option<u64>),
    two: (Definition, Duration, Source, Reply, &str, Option<u64>),
)
    requires
        call_ensures(serve, (one.0, one.1, one.2), one.3),
        call_ensures(serve, (two.0, two.1, two.2), two.3),
        call_ensures(parse_u64, (one.4,), one.5),
        call_ensures(parse_u64, (two.4,), two.5),
        one.3.cache_control@ == "public, max-age="@ + one.4@ + ", stale-if-error=86400"@,
        two.3.cache_control@ == "public, max-age="@ + two.4@ + ", stale-if-error=86400"@,
    ensures
        whole_secs(one.1) == whole_secs(two.1) ==> one.3.cache_control@ == two.3.cache_control@,
        one.5 is Some && two.5 is Some,
        whole_secs(one.1) <= whole_secs(two.1) ==> one.5->0 <= two.5->0,
        whole_secs(one.1) < whole_secs(two.1) ==> one.5->0 < two.5->0,
{
    law_max_age_is_what_is_left(one.0, one.1, one.2, one.3, one.4, one.5);
    law_max_age_is_what_is_left(two.0, two.1, two.2, two.3, two.4, two.5);
}

/// An error may not be held, says what it was given to say, and names no source.
pub proof fn law_errors_are_never_held(status: u16, message: &str, r: Reply)
    requires
        call_ensures(error, (status, message), r),
    ensures
        r.status == status,
        r.cache_control@ == "no-store"@,
        r.x_cache is None,
        r.body matches Body::Error(m) && m@ == message@,
{
}

/// A hit is served as one from memory, and counted as one.
pub proof fn law_a_hit_is_served_from_memory(
    def: Definition,
    remaining: Duration,
    r: (Reply, Counter),
    same: Reply,
)
    requires
        call_ensures(answer_hit, (def, remaining), r),
        call_ensures(serve, (def, remaining, Source::Memory), same),
    ensures
        r.0@ == same@,
        r.1 == Counter::Hits,
{
}

/// A request that waited is answered what the resolve came to, as if it had been
/// alone; where it stopped waiting it is told to come back, and that is counted;
/// where the resolve died it is told so.
pub proof fn law_a_request_is_told_what_came(
    waited: Waited,
    r: (Reply, Option<Counter>),
    def: Definition,
    failed: &str,
    served: Reply,
    refused: Reply,
)
    requires
        call_ensures(answer, (waited,), r),
    ensures
        match waited {
            Waited::TooLong => {
                &&& r.0.status == 504 && r.0.cache_control@ == "no-store"@
                &&& r.1 == Some(Counter::SlowResolves)
                &&& r.0.body matches Body::Error(m) && m@
                    == "still resolving upstream; the fetch continues and a retry should be served from cache"@
            },
            Waited::Ended => {
                &&& r.0.status == 502 && r.0.cache_control@ == "no-store"@
                &&& r.1 is None
                &&& r.0.body matches Body::Error(m) && m@ == "resolve task ended unexpectedly"@
            },
            Waited::Told(shared) => r.1 is None && match *shared {
                Ok((d, left, source)) => call_ensures(serve, (def, left, source), served) && d@
                    == def@ ==> r.0@ == served@,
                Err(failure) => call_ensures(error, (failure.status, failed), refused)
                    && failure.message@ == failed@ ==> r.0@ == refused@,
            },
        },
{
}

/// A request is refused with 400 exactly where its coordinate is, and with what
/// is said of that; otherwise it goes by the coordinate's key.
pub proof fn law_a_request_goes_by_its_key(
    kind: &str,
    provider: &str,
    namespace: &str,
    name: &str,
    revision: &str,
    r: Result<(Coordinate, String), Reply>,
    parsed: Result<Coordinate, crate::fault::FetchError>,
)
    requires
        call_ensures(open, (kind, provider, namespace, name, revision), r),
        call_ensures(Coordinate::parse, (kind, provider, namespace, name, revision), parsed),
    ensures
        match parsed {
            Ok(c) => r matches Ok((coord, key)) && coord@ == c@ && key@ == c@.key(),
            Err(e) => r matches Err(reply) && reply.status == 400 && reply.cache_control@
                == "no-store"@ && (reply.body matches Body::Error(m) && m@ == e@.words()),
        },
{
}

} // verus!
