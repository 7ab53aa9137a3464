//! A stored value and when it stops being one.
use vstd::prelude::*;

verus! {

/// A stored value and when it stops being one.
pub struct Record<V> {
    /// Absolute Unix expiry, not a TTL. The point of persisting is to survive a
    /// process that is not running, and a duration relative to insertion is
    /// meaningless once nobody is left to remember when insertion was.
    pub e: u64,
    pub v: V,
}

/// Whether an entry that expires at `expiry` is still one.
pub open spec fn lives(expiry: u64, now: u64) -> bool {
    expiry > now
}

/// What an entry that expires at `expiry` has left, in seconds, or nothing
/// where it has expired.
pub fn time_left(expiry: u64, now: u64) -> (r: Option<u64>)
    ensures
        match r {
            Some(left) => lives(expiry, now) && left == expiry - now,
            None => !lives(expiry, now),
        },
{
    if expiry <= now {
        None
    } else {
        Some(expiry - now)
    }
}

impl<V> Record<V> {
    /// A value to be stored at a time, to live for `ttl` seconds from then.
    pub fn seal(v: V, ttl: u64, now: u64) -> (r: Self)
        requires
            now + ttl <= u64::MAX,
        ensures
            r.v == v,
            r.e == now + ttl,
    {
        Record { e: now + ttl, v }
    }

    /// The value and the TTL it has left, in seconds, or nothing where it has
    /// expired.
    ///
    /// An expired record is left for the sweep rather than deleted on the spot:
    /// a read should not need a write transaction, and the entry is already
    /// invisible.
    pub fn open(self, now: u64) -> (r: Option<(V, u64)>)
        ensures
            match r {
                Some((v, left)) => lives(self.e, now) && v == self.v && left == self.e - now,
                None => !lives(self.e, now),
            },
    {
        match time_left(self.e, now) {
            Some(left) => Some((self.v, left)),
            None => None,
        }
    }
}

/// A value that was stored is read back until its time is up, with exactly the
/// life it was given less the time that has passed, however long the process
/// was not running in between.
pub proof fn law_a_record_outlives_the_process<V>(record: Record<V>, ttl: u64, stored: u64, read: u64)
    requires
        record.e == stored + ttl,
        stored <= read,
    ensures
        lives(record.e, read) <==> read - stored < ttl,
        lives(record.e, read) ==> record.e - read == ttl - (read - stored),
{
}

/// A value that is stored is read back for as long as it was given to live, with
/// exactly what is left of that, and not a second longer.
pub proof fn law_a_stored_value_is_read_back<V>(
    v: V,
    ttl: u64,
    stored: u64,
    record: Record<V>,
    read: u64,
    r: Option<(V, u64)>,
)
    requires
        stored + ttl <= u64::MAX,
        stored <= read,
        call_ensures(Record::<V>::seal, (v, ttl, stored), record),
        call_ensures(Record::<V>::open, (record, read), r),
    ensures
        read - stored < ttl ==> (r matches Some((value, left)) && value == v && left == ttl - (read
            - stored)),
        read - stored >= ttl ==> r is None,
{
}

/// An entry has something left exactly while its expiry lies ahead.
pub proof fn law_time_is_left_until_the_expiry(expiry: u64, now: u64, r: Option<u64>)
    requires
        call_ensures(time_left, (expiry, now), r),
    ensures
        r is Some <==> now < expiry,
        r matches Some(left) ==> now + left == expiry,
{
}

} // verus!
