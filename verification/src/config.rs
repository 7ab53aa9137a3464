//! What the environment says.
use vstd::prelude::*;

use crate::text::{chars_of, push_decimal};
use crate::text::{decimal, opt_text};

verus! {

/// Where the upstream API is, unless the environment says otherwise.
pub const UPSTREAM: &'static str = "https://api.clearlydefined.io";

/// Default on-disk location. A container gets persistence by mounting a volume
/// here and nothing worse than a warning by not doing so.
pub const DEFAULT_CACHE_PATH: &'static str = "/var/cache/clearly-cached/definitions.redb";

/// Seconds between sweeps of the disk. Nothing else removes expired entries,
/// and nothing depends on it being prompt -- an expired entry is already
/// invisible to reads, it just occupies a page until swept.
pub const SWEEP_EVERY: u64 = 3600;

pub open spec fn is_digit(c: char) -> bool {
    '0' <= c <= '9'
}

/// What decimal digits come to.
pub open spec fn amount(digits: Seq<char>) -> nat
    decreases digits.len(),
{
    if digits.len() == 0 {
        0
    } else {
        amount(digits.drop_last()) * 10 + (digits.last() as nat - '0' as nat) as nat
    }
}

/// What stands behind a plus sign, if there is one.
pub open spec fn unsigned(s: Seq<char>) -> Seq<char> {
    if s.len() > 0 && s[0] == '+' {
        s.skip(1)
    } else {
        s
    }
}

pub open spec fn all_digits(s: Seq<char>) -> bool {
    forall|i: int| 0 <= i < s.len() ==> is_digit(#[trigger] s[i])
}

/// The number that a text spells: decimal digits, at least one, perhaps behind
/// a plus sign, that come to no more than fits.
pub open spec fn number(s: Seq<char>) -> Option<u64> {
    let digits = unsigned(s);
    if digits.len() > 0 && all_digits(digits) && amount(digits) <= u64::MAX {
        Some(amount(digits) as u64)
    } else {
        None
    }
}

proof fn lemma_value_grows(digits: Seq<char>, n: int)
    requires
        0 <= n <= digits.len(),
        all_digits(digits),
    ensures
        amount(digits.take(n)) <= amount(digits),
    decreases digits.len() - n,
{
    if n < digits.len() {
        lemma_value_grows(digits, n + 1);
        assert(digits.take(n + 1).drop_last() =~= digits.take(n));
    } else {
        assert(digits.take(n) =~= digits);
    }
}

/// Reads a number.
pub fn parse_u64(s: &str) -> (r: Option<u64>)
    ensures
        r == number(s@),
{
    let chars = chars_of(s);
    let start: usize = if chars.len() > 0 && chars[0] == '+' {
        1
    } else {
        0
    };
    let ghost digits = unsigned(s@);
    assert(digits =~= chars@.skip(start as int));
    if chars.len() == start {
        return None;
    }
    let mut total: u64 = 0;
    let mut i: usize = start;
    assert(digits.take(0) =~= Seq::<char>::empty());
    while i < chars.len()
        invariant
            start <= i <= chars@.len(),
            start < chars@.len(),
            digits == chars@.skip(start as int),
            digits == unsigned(s@),
            total == amount(digits.take(i - start)),
            forall|j: int| 0 <= j < i - start ==> is_digit(#[trigger] digits[j]),
        decreases chars@.len() - i,
    {
        let c: char = chars[i];
        let ghost at = i - start;
        assert(digits[at] == c);
        if c < '0' || c > '9' {
            assert(!all_digits(digits));
            return None;
        }
        let d: u64 = c as u64 - '0' as u64;
        assert(digits.take(at + 1).drop_last() =~= digits.take(at));
        assert(amount(digits.take(at + 1)) == total * 10 + d);
        let grown: u128 = total as u128 * 10 + d as u128;
        if grown > u64::MAX as u128 {
            proof {
                if all_digits(digits) {
                    lemma_value_grows(digits, at + 1);
                }
            }
            return None;
        }
        total = grown as u64;
        i = i + 1;
    }
    assert(digits.take(i - start) =~= digits);
    Some(total)
}

/// The number that a variable holds, or the default where it holds none.
pub open spec fn number_or(variable: Option<Seq<char>>, default: u64) -> u64 {
    match variable {
        Some(text) => match number(text) {
            Some(n) => n,
            None => default,
        },
        None => default,
    }
}

/// The text that a variable holds, or the default where it is not set.
pub open spec fn text_or(variable: Option<Seq<char>>, default: Seq<char>) -> Seq<char> {
    match variable {
        Some(text) => text,
        None => default,
    }
}

/// The number that a variable holds, or the default where it is not set or
/// holds no number.
pub fn env_u64(variable: &Option<String>, default: u64) -> (r: u64)
    ensures
        r == number_or(opt_text(*variable), default),
{
    match variable {
        Some(text) => match parse_u64(text.as_str()) {
            Some(n) => n,
            None => default,
        },
        None => default,
    }
}

fn env_text(variable: Option<String>, default: &str) -> (r: String)
    ensures
        r@ == text_or(opt_text(variable), default@),
{
    match variable {
        Some(text) => text,
        None => default.to_owned(),
    }
}

/// Where the cache is persisted: nowhere, where the variable is set and empty.
pub open spec fn path_in(variable: Option<Seq<char>>) -> Option<Seq<char>> {
    match variable {
        Some(path) => if path.len() == 0 {
            None
        } else {
            Some(path)
        },
        None => Some(DEFAULT_CACHE_PATH@),
    }
}

/// Where the cache is persisted. A variable that is set and empty means memory
/// only.
pub fn cache_path(variable: Option<String>) -> (r: Option<String>)
    ensures
        opt_text(r) == path_in(opt_text(variable)),
{
    match variable {
        Some(path) => {
            let chars = chars_of(path.as_str());
            if chars.len() == 0 {
                None
            } else {
                Some(path)
            }
        },
        None => Some(DEFAULT_CACHE_PATH.to_owned()),
    }
}

/// The variables that are read, as far as they are set.
pub struct Variables {
    pub listen_addr: Option<String>,
    pub upstream: Option<String>,
    pub cache_path: Option<String>,
    pub cache_capacity: Option<String>,
    pub cache_disk_max_entries: Option<String>,
    pub upstream_attempts: Option<String>,
    pub upstream_timeout_secs: Option<String>,
    pub upstream_deadline_secs: Option<String>,
    pub client_deadline_secs: Option<String>,
}

/// What the service runs by.
pub struct Settings {
    pub listen_addr: String,
    pub upstream: String,
    pub cache_path: Option<String>,
    /// Entries held in memory before eviction.
    pub capacity: u64,
    /// Disk ceiling; 0 for unbounded.
    pub disk_max_entries: u64,
    /// Total attempts per fetch.
    pub attempts: u32,
    /// Per attempt. Seconds, as all of these.
    pub timeout: u64,
    /// Across all attempts. The one that matters to a caller: a client that has
    /// already given up is not helped by an answer arriving later.
    pub deadline: u64,
    /// How long a request waits, which is a different question from how long
    /// the resolve may take.
    pub client_deadline: u64,
}

/// Reads the variables. The attempts are taken modulo the range they are held
/// in.
pub fn settings(variables: Variables) -> (r: Settings)
    ensures
        r.listen_addr@ == text_or(opt_text(variables.listen_addr), "0.0.0.0:8080"@),
        r.upstream@ == text_or(opt_text(variables.upstream), UPSTREAM@),
        opt_text(r.cache_path) == path_in(opt_text(variables.cache_path)),
        r.capacity == number_or(opt_text(variables.cache_capacity), 200_000),
        r.disk_max_entries == number_or(opt_text(variables.cache_disk_max_entries), 2_000_000),
        r.attempts as int == number_or(opt_text(variables.upstream_attempts), 3) as int
            % 0x1_0000_0000,
        r.timeout == number_or(opt_text(variables.upstream_timeout_secs), 8),
        r.deadline == number_or(opt_text(variables.upstream_deadline_secs), 25),
        r.client_deadline == number_or(opt_text(variables.client_deadline_secs), 5),
{
    let attempts: u64 = env_u64(&variables.upstream_attempts, 3) % 0x1_0000_0000;
    Settings {
        capacity: env_u64(&variables.cache_capacity, 200_000),
        disk_max_entries: env_u64(&variables.cache_disk_max_entries, 2_000_000),
        attempts: attempts as u32,
        timeout: env_u64(&variables.upstream_timeout_secs, 8),
        deadline: env_u64(&variables.upstream_deadline_secs, 25),
        client_deadline: env_u64(&variables.client_deadline_secs, 5),
        listen_addr: env_text(variables.listen_addr, "0.0.0.0:8080"),
        upstream: env_text(variables.upstream, UPSTREAM),
        cache_path: cache_path(variables.cache_path),
    }
}

/// What to say of a client deadline that does not bound anything.
///
/// A client deadline at or above the upstream one is the same as having none:
/// the resolve always answers first, so every caller waits out the full upstream
/// deadline to be told what it could have been told in five seconds. That is a
/// deployment mistake rather than a reason to refuse to start, so it is said --
/// because from the outside it is indistinguishable from the bound not existing
/// at all.
pub fn deadline_warning(client_deadline: u64, deadline: u64) -> (r: Option<String>)
    ensures
        opt_text(r) == if client_deadline >= deadline {
            Some(
                "config: CLIENT_DEADLINE_SECS ("@ + decimal(client_deadline as nat)
                    + "s) is not below UPSTREAM_DEADLINE_SECS ("@ + decimal(deadline as nat)
                    + "s), so callers will wait out the resolve instead of being told to retry"@,
            )
        } else {
            None
        },
{
    if client_deadline < deadline {
        return None;
    }
    let mut out = "config: CLIENT_DEADLINE_SECS (".to_owned();
    push_decimal(&mut out, client_deadline);
    out.append("s) is not below UPSTREAM_DEADLINE_SECS (");
    push_decimal(&mut out, deadline);
    out.append("s), so callers will wait out the resolve instead of being told to retry");
    Some(out)
}

/// Reading a number goes digit by digit: a digit put behind what spells a number
/// spells ten times the number and the digit, as long as that fits. Nothing but
/// a digit may be put behind, and what spells no number spells none with more
/// put behind it, but for nothing at all and a lone plus sign, behind which a
/// digit spells itself.
pub proof fn law_numbers_are_read_digit_by_digit(
    shorter: &str,
    longer: &str,
    before: Option<u64>,
    r: Option<u64>,
    c: char,
)
    requires
        call_ensures(parse_u64, (shorter,), before),
        call_ensures(parse_u64, (longer,), r),
        longer@ == shorter@.push(c),
    ensures
        ({
            let d = c as int - 48;
            let start = shorter@.len() == 0 || shorter@ == seq!['+'];
            &&& start ==> before is None
            &&& start ==> r == if 0 <= d <= 9 {
                Some(d as u64)
            } else {
                None
            }
            &&& !start && before is None ==> r is None
            &&& !start && before is Some ==> r == if 0 <= d <= 9 && before->0 * 10 + d
                <= u64::MAX {
                Some((before->0 * 10 + d) as u64)
            } else {
                None
            }
        }),
{
    let s = shorter@;
    let t = longer@;
    let a = unsigned(s);
    let b = unsigned(t);
    let start = s.len() == 0 || s == seq!['+'];
    if s.len() == 1 && s[0] == '+' {
        assert(s =~= seq!['+']);
    }
    if s.len() == 0 {
        if c == '+' {
            assert(b.len() == 0);
        } else {
            assert(b == t);
            assert(b.drop_last() =~= s);
            assert(b[0] == c);
            assert(amount(s) == 0);
        }
    } else {
        assert(b =~= a.push(c));
        assert(b.drop_last() =~= a);
        assert(b[a.len() as int] == c);
        if start {
            assert(a.len() == 0);
            assert(b[0] == c);
            assert(amount(a) == 0);
        } else {
            assert forall|i: int| 0 <= i < a.len() implies b[i] == a[i] by {}
            if all_digits(b) {
                assert forall|i: int| 0 <= i < a.len() implies is_digit(#[trigger] a[i]) by {
                    assert(is_digit(b[i]));
                }
                assert(is_digit(b[a.len() as int]));
            }
            if all_digits(a) && is_digit(c) {
                assert forall|i: int| 0 <= i < b.len() implies is_digit(#[trigger] b[i]) by {
                    if i < a.len() {
                        assert(is_digit(a[i]));
                    }
                }
            }
        }
    }
}

/// Every number is read back from its decimal spelling.
pub proof fn law_a_number_reads_back(text: &str, r: Option<u64>, n: u64)
    requires
        call_ensures(parse_u64, (text,), r),
        text@ == decimal(n as nat),
    ensures
        r == Some(n),
{
    lemma_amount_of_decimal(n as nat);
}

proof fn lemma_amount_of_decimal(n: nat)
    ensures
        decimal(n).len() > 0,
        all_digits(decimal(n)),
        amount(decimal(n)) == n,
        unsigned(decimal(n)) == decimal(n),
    decreases n,
{
    let s = decimal(n);
    if n < 10 {
        assert(s.drop_last() =~= Seq::<char>::empty());
        assert(amount(s.drop_last()) == 0);
        assert(s[0] as int == 48 + n);
    } else {
        lemma_amount_of_decimal(n / 10);
        let head = decimal(n / 10);
        assert(s.drop_last() =~= head);
        assert(s.last() as int == 48 + n % 10);
        assert forall|i: int| 0 <= i < s.len() implies is_digit(#[trigger] s[i]) by {
            if i < head.len() {
                assert(is_digit(head[i]));
            }
        }
    }
    assert(is_digit(s[0]));
}

/// With nothing set the service runs by its defaults.
pub proof fn law_the_defaults(variables: Variables, r: Settings)
    requires
        call_ensures(settings, (variables,), r),
        variables.listen_addr is None,
        variables.upstream is None,
        variables.cache_path is None,
        variables.cache_capacity is None,
        variables.cache_disk_max_entries is None,
        variables.upstream_attempts is None,
        variables.upstream_timeout_secs is None,
        variables.upstream_deadline_secs is None,
        variables.client_deadline_secs is None,
    ensures
        r.listen_addr@ == "0.0.0.0:8080"@,
        r.upstream@ == "https://api.clearlydefined.io"@,
        r.cache_path matches Some(path) && path@ == "/var/cache/clearly-cached/definitions.redb"@,
        r.capacity == 200_000,
        r.disk_max_entries == 2_000_000,
        r.attempts == 3,
        r.timeout == 8,
        r.deadline == 25,
        r.client_deadline == 5,
{
}

/// A variable that is set is taken as it is, where it is a text, and as the
/// number it spells, where it spells one; an empty path means no disk.
pub proof fn law_what_is_set_is_taken(
    variables: Variables,
    r: Settings,
    text: String,
    number: &str,
    n: u64,
)
    requires
        call_ensures(settings, (variables,), r),
        call_ensures(parse_u64, (number,), Some(n)),
    ensures
        variables.listen_addr == Some(text) ==> r.listen_addr@ == text@,
        variables.upstream == Some(text) ==> r.upstream@ == text@,
        variables.cache_path == Some(text) ==> if text@.len() == 0 {
            r.cache_path is None
        } else {
            r.cache_path matches Some(path) && path@ == text@
        },
        variables.cache_capacity matches Some(v) && v@ == number@ ==> r.capacity == n,
        variables.cache_disk_max_entries matches Some(v) && v@ == number@ ==> r.disk_max_entries == n,
        variables.upstream_attempts matches Some(v) && v@ == number@ && n <= u32::MAX ==> r.attempts
            == n,
        variables.upstream_timeout_secs matches Some(v) && v@ == number@ ==> r.timeout == n,
        variables.upstream_deadline_secs matches Some(v) && v@ == number@ ==> r.deadline == n,
        variables.client_deadline_secs matches Some(v) && v@ == number@ ==> r.client_deadline == n,
{
}

/// What spells no number is the default.
pub proof fn law_no_number_is_the_default(variable: Option<String>, text: &str, default: u64, r: u64)
    requires
        call_ensures(env_u64, (&variable, default), r),
        variable matches Some(v) ==> v@ == text@ && call_ensures(parse_u64, (text,), None::<u64>),
    ensures
        r == default,
{
}

/// The warning is given exactly where the client deadline is not below the
/// upstream one.
pub proof fn law_the_warning_is_given_in_time(client: u64, upstream: u64, r: Option<String>)
    requires
        call_ensures(deadline_warning, (client, upstream), r),
    ensures
        r is None <==> client < upstream,
{
}

} // verus!
