//! Asking a flaky upstream: what to send, how long to wait, what an answer
//! means and when to ask again.
//!
//! Sampled from one host, roughly 40% of cold requests to upstream returned
//! nothing within 10 seconds, and every one of those succeeded on retry within
//! a second. A single attempt is the difference between a populated SBOM and a
//! silently empty one, so a stall is retried rather than passed on.
use std::time::Duration;
use vstd::prelude::*;

use crate::coordinate::Coordinate;
use crate::definition::{normalise, Definition};
use crate::fault::FetchError;
use crate::json::parse_json;
use crate::text::push_decimal;
use crate::time::nanos_of;
use crate::definition::{found_in, summary_of, Summary};
use crate::fault::Fault;
use crate::json::json_parse;
use crate::text::decimal;
use crate::time::span_nanos;

verus! {

/// What one attempt came back with, or a whole fetch.
pub type Answer = Result<Definition, FetchError>;

/// What an [`Answer`] says.
pub open spec fn answer_view(answer: Answer) -> Result<Summary, Fault> {
    match answer {
        Ok(d) => Ok(d@),
        Err(e) => Err(e@),
    }
}

/// How upstream is asked.
pub struct Client {
    upstream: String,
    attempts: u32,
    /// Ceiling on everything one resolve may spend upstream, in nanoseconds.
    ///
    /// Attempts alone do not bound it: three at fifteen seconds each is a
    /// forty-five second wait.
    deadline: u128,
}

/// One fetch in progress: the attempt it is at.
pub struct Fetch {
    url: String,
    attempts: u32,
    deadline: u128,
    attempt: u32,
}

impl Client {
    pub closed spec fn base(&self) -> Seq<char> {
        self.upstream@
    }

    /// How many attempts a fetch makes at most.
    pub closed spec fn limit(&self) -> nat {
        self.attempts as nat
    }

    /// What a fetch may spend, in nanoseconds.
    pub closed spec fn allowance(&self) -> nat {
        self.deadline as nat
    }

    pub closed spec fn wf(&self) -> bool {
        self.attempts >= 1
    }

    pub fn new(upstream: String, attempts: u32, deadline: Duration) -> (r: Self)
        ensures
            r.wf(),
            r.base() == upstream@,
            r.limit() == if attempts == 0 { 1 } else { attempts as nat },
            r.allowance() == span_nanos(deadline),
    {
        let attempts: u32 = if attempts == 0 {
            1
        } else {
            attempts
        };
        Client { upstream, attempts, deadline: nanos_of(deadline) }
    }

    /// Starts a fetch of one coordinate.
    pub fn fetch(&self, coord: &Coordinate) -> (r: Fetch)
        requires
            self.wf(),
        ensures
            r.wf(),
            r.target() == self.base() + "/definitions/"@ + coord@.key(),
            r.limit() == self.limit(),
            r.allowance() == self.allowance(),
            r.made() == 0,
    {
        let mut url = self.upstream.clone();
        url.append("/definitions/");
        url.append(coord.cache_key().as_str());
        Fetch { url, attempts: self.attempts, deadline: self.deadline, attempt: 0 }
    }

    /// What a fetch that ran out of time reports, given its deadline and the
    /// time it spent, both in seconds and in words.
    ///
    /// Transient on purpose: nothing is learned about the coordinate, so
    /// nothing is cached and asking again is reasonable.
    pub fn expired(deadline: &str, spent: &str) -> (r: FetchError)
        ensures
            r@ == Fault::Transient(
                "no answer within "@ + deadline@ + "s (spent "@ + spent@ + "s)"@,
            ),
    {
        let mut out = "no answer within ".to_owned();
        out.append(deadline);
        out.append("s (spent ");
        out.append(spent);
        out.append("s)");
        FetchError::Transient(out)
    }
}

/// Whether an answer settles a fetch, or is worth another attempt.
pub open spec fn settles(answer: Result<Summary, Fault>) -> bool {
    !(answer is Err && answer->Err_0 is Transient)
}

/// Milliseconds to wait before the attempt after `made` others. Short and
/// linear: the observed stalls cleared on the next try within a second; a long
/// backoff would cost more than the failure it is pacing.
pub open spec fn backoff(made: nat) -> nat {
    250 * made
}

/// Nanoseconds to wait before the attempt after `made` others, once the fetch
/// has run for `elapsed` of them. The wait is cut short where it would carry
/// the total past the deadline.
pub open spec fn paused(made: nat, allowance: nat, elapsed: nat) -> nat {
    let whole = backoff(made) * 1_000_000;
    if elapsed >= allowance {
        0
    } else if whole <= allowance - elapsed {
        whole
    } else {
        (allowance - elapsed) as nat
    }
}

impl Fetch {
    pub closed spec fn target(&self) -> Seq<char> {
        self.url@
    }

    /// How many attempts this fetch makes at most.
    pub closed spec fn limit(&self) -> nat {
        self.attempts as nat
    }

    /// What this fetch may spend, in nanoseconds.
    pub closed spec fn allowance(&self) -> nat {
        self.deadline as nat
    }

    /// How many attempts it has made.
    pub closed spec fn made(&self) -> nat {
        self.attempt as nat
    }

    /// At least one attempt is left.
    pub closed spec fn wf(&self) -> bool {
        self.attempt < self.attempts
    }

    /// Where to ask.
    pub fn url(&self) -> (r: &str)
        ensures
            r@ == self.target(),
    {
        self.url.as_str()
    }

    /// Nanoseconds to wait before the next attempt, once the fetch has run for
    /// `elapsed` of them.
    pub fn pause(&self, elapsed: u128) -> (r: u128)
        ensures
            r == paused(self.made(), self.allowance(), elapsed as nat),
    {
        if elapsed >= self.deadline {
            return 0;
        }
        let left: u128 = self.deadline - elapsed;
        let whole: u128 = 250 * self.attempt as u128 * 1_000_000;
        if whole <= left {
            whole
        } else {
            left
        }
    }

    /// What is left for the next attempt, in nanoseconds, once the fetch has
    /// run for `elapsed` of them; nothing where the deadline has passed.
    ///
    /// Only what is left of the budget, so a final attempt is cut short rather
    /// than allowed to carry the total past the deadline.
    pub fn budget(&self, elapsed: u128) -> (r: Option<u128>)
        ensures
            match r {
                Some(left) => left > 0 && elapsed + left == self.allowance(),
                None => elapsed >= self.allowance(),
            },
    {
        if elapsed < self.deadline {
            Some(self.deadline - elapsed)
        } else {
            None
        }
    }

    /// Takes what an attempt came back with, and says what the fetch comes to,
    /// or nothing where another attempt is due.
    pub fn answered(&mut self, answer: Answer) -> (r: Option<Answer>)
        requires
            old(self).wf(),
        ensures
            final(self).target() == old(self).target(),
            final(self).limit() == old(self).limit(),
            final(self).allowance() == old(self).allowance(),
            match r {
                Some(a) => a == answer && (settles(answer_view(answer)) || old(self).made() + 1
                    == old(self).limit()) && final(self).made() == old(self).made(),
                None => final(self).wf() && !settles(answer_view(answer)) && final(self).made()
                    == old(self).made() + 1,
            },
    {
        let again = match &answer {
            Err(FetchError::Transient(_)) => self.attempt + 1 < self.attempts,
            _ => false,
        };
        if again {
            self.attempt = self.attempt + 1;
            None
        } else {
            Some(answer)
        }
    }
}

/// What a status says of the body that came with it, if anything stands in the
/// way of reading it.
pub open spec fn status_fault(status: u16) -> Option<Fault> {
    if status == 429 || 500 <= status < 600 {
        Some(Fault::Transient("HTTP "@ + decimal(status as nat)))
    } else if status != 200 {
        Some(Fault::Upstream(status))
    } else {
        None
    }
}

/// Judges the status of a response. Only a 200 has a body worth reading.
pub fn check_status(status: u16) -> (r: Result<(), FetchError>)
    ensures
        match r {
            Ok(_) => status_fault(status) is None,
            Err(e) => status_fault(status) == Some(e@),
        },
{
    if status == 429 || (500 <= status && status < 600) {
        let mut out = "HTTP ".to_owned();
        push_decimal(&mut out, status as u64);
        return Err(FetchError::Transient(out));
    }
    if status != 200 {
        return Err(FetchError::Upstream(status));
    }
    Ok(())
}

/// A body that could not be had or read, and why.
pub fn malformed_body(reason: &str) -> (r: FetchError)
    ensures
        r@ == Fault::Transient("malformed body: "@ + reason@),
{
    let mut out = "malformed body: ".to_owned();
    out.append(reason);
    FetchError::Transient(out)
}

/// Reads the body of a response: a JSON document is projected, and anything
/// else may be a response that broke off, so it is worth asking again.
pub fn read_body(body: &[u8]) -> (r: Answer)
    ensures
        answer_view(r) == match json_parse(body@) {
            Some(doc) => Ok::<Summary, Fault>(summary_of(found_in(doc))),
            None => Err::<Summary, Fault>(
                Fault::Transient("malformed body: "@ + "error decoding response body"@),
            ),
        },
{
    match parse_json(body) {
        Ok(doc) => Ok(normalise(&doc)),
        Err(_) => Err(malformed_body("error decoding response body")),
    }
}

/// How many attempts a fetch has made once it is over, where `answers` gives
/// what each attempt comes back with and `made` of them are behind it.
pub open spec fn attempts_used(
    answers: spec_fn(nat) -> Result<Summary, Fault>,
    limit: nat,
    made: nat,
) -> nat
    decreases limit - made,
{
    if made + 1 >= limit || settles(answers(made)) {
        made + 1
    } else {
        attempts_used(answers, limit, made + 1)
    }
}

/// A fetch makes at least one attempt and no more than its limit; it goes on
/// past every transient failure and past nothing else, so what it comes to is
/// the first answer that is not transient, or the last one it may ask for.
pub proof fn law_transient_failures_are_retried(
    answers: spec_fn(nat) -> Result<Summary, Fault>,
    limit: nat,
    made: nat,
)
    requires
        made < limit,
    ensures
        made < attempts_used(answers, limit, made) <= limit,
        forall|k: nat|
            made <= k < attempts_used(answers, limit, made) - 1 ==> !settles(#[trigger] answers(k)),
        attempts_used(answers, limit, made) == limit || settles(
            answers((attempts_used(answers, limit, made) - 1) as nat),
        ),
    decreases limit - made,
{
    if !(made + 1 >= limit || settles(answers(made))) {
        law_transient_failures_are_retried(answers, limit, (made + 1) as nat);
    }
}

/// When a fetch is over, in nanoseconds from its start, where `takes` gives how
/// long each attempt would run if it were let, `made` of them are behind it and
/// the clock stands at `clock`. An attempt is cut off when the deadline comes.
pub open spec fn over_at(
    answers: spec_fn(nat) -> Result<Summary, Fault>,
    takes: spec_fn(nat) -> nat,
    limit: nat,
    allowance: nat,
    made: nat,
    clock: nat,
) -> nat
    decreases limit - made,
{
    let begun = clock + paused(made, allowance, clock);
    if begun >= allowance {
        begun
    } else if begun + takes(made) >= allowance {
        allowance
    } else if made + 1 >= limit || settles(answers(made)) {
        begun + takes(made)
    } else {
        over_at(answers, takes, limit, allowance, made + 1, begun + takes(made))
    }
}

/// What such a fetch comes to: how many attempts it has begun, and the answer
/// it ends with, or none where the deadline came first.
pub open spec fn comes_to(
    answers: spec_fn(nat) -> Result<Summary, Fault>,
    takes: spec_fn(nat) -> nat,
    limit: nat,
    allowance: nat,
    made: nat,
    clock: nat,
) -> (nat, Option<Result<Summary, Fault>>)
    decreases limit - made,
{
    let begun = clock + paused(made, allowance, clock);
    if begun >= allowance {
        (made, None)
    } else if begun + takes(made) >= allowance {
        (made + 1, None)
    } else if made + 1 >= limit || settles(answers(made)) {
        (made + 1, Some(answers(made)))
    } else {
        comes_to(answers, takes, limit, allowance, made + 1, begun + takes(made))
    }
}

/// However slow upstream is, a fetch is over by its deadline: no attempt and no
/// pause runs past it.
pub proof fn law_a_fetch_is_bounded_by_its_deadline(
    answers: spec_fn(nat) -> Result<Summary, Fault>,
    takes: spec_fn(nat) -> nat,
    limit: nat,
    allowance: nat,
    made: nat,
    clock: nat,
)
    requires
        made < limit,
        clock <= allowance,
    ensures
        over_at(answers, takes, limit, allowance, made, clock) <= allowance,
    decreases limit - made,
{
    let begun = clock + paused(made, allowance, clock);
    if begun < allowance && begun + takes(made) < allowance && made + 1 < limit && !settles(
        answers(made),
    ) {
        law_a_fetch_is_bounded_by_its_deadline(
            answers,
            takes,
            limit,
            allowance,
            made + 1,
            begun + takes(made),
        );
    }
}

/// A fetch ends with an answer exactly where it is over before its deadline,
/// and that answer is the one of the last attempt it has begun. Where the
/// deadline comes first nothing upstream said is passed on, and where there is
/// nothing to spend no attempt is begun at all.
pub proof fn law_a_deadline_leaves_no_answer(
    answers: spec_fn(nat) -> Result<Summary, Fault>,
    takes: spec_fn(nat) -> nat,
    limit: nat,
    allowance: nat,
    made: nat,
    clock: nat,
)
    requires
        made < limit,
        clock <= allowance,
    ensures
        ({
            let (begun, answer) = comes_to(answers, takes, limit, allowance, made, clock);
            let over = over_at(answers, takes, limit, allowance, made, clock);
            &&& made <= begun <= limit
            &&& clock == allowance ==> begun == made
            &&& answer is Some <==> over < allowance
            &&& answer matches Some(a) ==> begun > made && a == answers((begun - 1) as nat) && (
            settles(a) || begun == limit)
            &&& answer is None ==> over == allowance
        }),
    decreases limit - made,
{
    let begun = clock + paused(made, allowance, clock);
    if begun < allowance && begun + takes(made) < allowance && made + 1 < limit && !settles(
        answers(made),
    ) {
        law_a_deadline_leaves_no_answer(
            answers,
            takes,
            limit,
            allowance,
            made + 1,
            begun + takes(made),
        );
    }
}

/// A fetch that is in progress has an attempt left, so the last transient
/// answer it may ask for ends it.
pub proof fn law_an_attempt_is_left(fetch: Fetch)
    requires
        fetch.wf(),
    ensures
        fetch.made() < fetch.limit(),
{
}

/// Only a transient failure leaves a fetch open; a definition, a definitive
/// status and a refusal each settle it.
pub proof fn law_what_settles_a_fetch(answer: Answer)
    ensures
        match answer {
            Ok(_) => settles(answer_view(answer)),
            Err(FetchError::Transient(_)) => !settles(answer_view(answer)),
            Err(FetchError::Upstream(_)) => settles(answer_view(answer)),
            Err(FetchError::Rejected(_)) => settles(answer_view(answer)),
        },
{
}

/// A status has its body read where it is 200; it is asked again where it is 429
/// or from 500 to 599, and says which it was; any other settles the fetch with
/// the status that came.
pub proof fn law_what_a_status_means(status: u16, r: Result<(), FetchError>)
    requires
        call_ensures(check_status, (status,), r),
    ensures
        r is Ok <==> status == 200,
        r matches Err(e) ==> {
            &&& !settles(Err(e@)) <==> status == 429 || 500 <= status <= 599
            &&& match e {
                FetchError::Transient(m) => m@ == "HTTP "@ + decimal(status as nat),
                FetchError::Upstream(code) => code == status,
                FetchError::Rejected(_) => false,
            }
        },
{
}

/// A body that is a JSON document gives what normalising it gives, and any other
/// is asked for again.
pub proof fn law_a_body_is_normalised(
    body: &[u8],
    r: Answer,
    doc: serde_json::Value,
    definition: Definition,
)
    requires
        call_ensures(read_body, (body,), r),
        call_ensures(normalise, (&doc,), definition),
    ensures
        json_parse(body@) == Some(crate::json::json_of(doc)) ==> (r matches Ok(d) && d@
            == definition@),
        json_parse(body@) is None ==> r is Err && !settles(answer_view(r)),
        json_parse(body@) is Some ==> r is Ok,
{
}

/// The pauses grow by a quarter of a second with each attempt, from none, and
/// the time that a pause and what ran before it take together never passes the
/// deadline; a pause is shorter than it was going to be only where it ends at
/// the deadline.
pub proof fn law_pauses_grow_evenly(fetch: &Fetch, elapsed: u128, r: u128)
    requires
        call_ensures(Fetch::pause, (fetch, elapsed), r),
    ensures
        elapsed <= fetch.allowance() ==> elapsed + r <= fetch.allowance(),
        elapsed > fetch.allowance() ==> r == 0,
        r <= fetch.made() * 250_000_000,
        r < fetch.made() * 250_000_000 && elapsed <= fetch.allowance() ==> elapsed + r
            == fetch.allowance(),
{
}

/// An attempt may run until the deadline and no longer, and there is none once
/// it has come.
pub proof fn law_an_attempt_may_run_until_the_deadline(fetch: &Fetch, elapsed: u128, r: Option<u128>)
    requires
        call_ensures(Fetch::budget, (fetch, elapsed), r),
    ensures
        r matches Some(left) ==> elapsed + left == fetch.allowance(),
        r is Some <==> elapsed < fetch.allowance(),
{
}

/// A fetch asks for the definition under the key of its coordinate.
pub proof fn law_upstream_is_asked_under_the_key(
    client: &Client,
    coord: &Coordinate,
    fetch: Fetch,
    key: String,
)
    requires
        call_ensures(Client::fetch, (client, coord), fetch),
        call_ensures(Coordinate::cache_key, (coord,), key),
    ensures
        fetch.target() == client.base() + "/definitions/"@ + key@,
        fetch.made() == 0,
{
}

/// A client makes at least one attempt and otherwise as many as it was told, and
/// spends no more than it was given.
pub proof fn law_a_client_keeps_to_what_it_was_given(
    upstream: String,
    attempts: u32,
    deadline: Duration,
    client: Client,
    nanos: u128,
)
    requires
        call_ensures(Client::new, (upstream, attempts, deadline), client),
        call_ensures(nanos_of, (deadline,), nanos),
    ensures
        client.base() == upstream@,
        attempts >= 1 ==> client.limit() == attempts,
        attempts == 0 ==> client.limit() == 1,
        client.allowance() == nanos,
{
}

/// Running out of time is a transient failure that says how much there was and
/// how much was spent, so the fetch is left open and nothing is learned.
pub proof fn law_running_out_of_time_settles_nothing(deadline: &str, spent: &str, r: FetchError)
    requires
        call_ensures(Client::expired, (deadline, spent), r),
    ensures
        !settles(Err(r@)),
        r matches FetchError::Transient(m) && m@ == "no answer within "@ + deadline@ + "s (spent "@
            + spent@ + "s)"@,
{
}

} // verus!
