//! Windows `FILETIME`: 100ns intervals since 1601-01-01, split into two 32-bit halves.

use vstd::prelude::*;
use std::time::SystemTime;

verus! {

/// Windows `FILETIME`.
#[allow(non_snake_case)]
#[derive(Clone, Copy, Debug, PartialEq, Eq, Structural)]
pub struct FILETIME {
    pub dwLowDateTime: u32,
    pub dwHighDateTime: u32,
}

/// The FILETIME value of the UNIX epoch.
pub const MS_EPOCH: u64 = 116_444_736_000_000_000u64;

/// Nanoseconds per FILETIME tick.
pub const RESOLUTION_SCALE: u64 = 100u64;

#[verifier::external_type_specification]
#[verifier::external_body]
pub struct ExSystemTime(SystemTime);

/// The time since the UNIX epoch that `t` denotes, in nanoseconds, as
/// `SystemTime::duration_since(UNIX_EPOCH)` followed by `Duration::as_nanos` gives it; `None`
/// for times before the epoch.
pub uninterp spec fn unix_nanos_of(t: SystemTime) -> Option<u128>;

/// `SystemTime::now()`. Nothing is promised of the result: it is the clock.
#[verifier::external_body]
fn system_time_now() -> SystemTime {
    SystemTime::now()
}

/// Calls `t.duration_since(SystemTime::UNIX_EPOCH)` and turns the duration into nanoseconds
/// with `Duration::as_nanos`; an error (a time before the epoch) becomes `None`.
#[verifier::external_body]
fn nanos_since_unix_epoch(t: &SystemTime) -> (r: Option<u128>)
    ensures
        r == unix_nanos_of(*t),
{
    match t.duration_since(SystemTime::UNIX_EPOCH) {
        Ok(d) => Some(d.as_nanos()),
        Err(_) => None,
    }
}

/// `SystemTime::UNIX_EPOCH + Duration::from_nanos(nanos)`: the instant `nanos` nanoseconds
/// after the epoch, so that its `duration_since(UNIX_EPOCH)` is `nanos` nanoseconds. Only
/// whole multiples of 100ns are handed over: `SystemTime`'s precision depends on the platform
/// (100ns intervals on Windows), and finer parts may be lost.
#[verifier::external_body]
fn system_time_from_unix_nanos(nanos: u64) -> (r: SystemTime)
    requires
        nanos % 100 == 0,
    ensures
        unix_nanos_of(r) == Some(nanos as u128),
{
    SystemTime::UNIX_EPOCH + std::time::Duration::from_nanos(nanos)
}

impl Default for FILETIME {
    /// The UNIX epoch.
    fn default() -> (r: FILETIME)
        ensures
            r.ticks() == MS_EPOCH,
            r == FILETIME::from_ticks(MS_EPOCH),
    {
        FILETIME::from_tick_count(MS_EPOCH)
    }
}

impl FILETIME {
    /// The 64-bit tick count.
    pub open spec fn ticks(self) -> nat {
        self.dwHighDateTime as nat * 0x1_0000_0000 + self.dwLowDateTime as nat
    }

    /// The FILETIME with the given tick count.
    pub open spec fn from_ticks(t: u64) -> FILETIME {
        FILETIME { dwLowDateTime: (t % 0x1_0000_0000) as u32, dwHighDateTime: (t / 0x1_0000_0000) as u32 }
    }

    /// The FILETIME with tick count `t`.
    pub fn from_tick_count(t: u64) -> (r: FILETIME)
        ensures
            r == FILETIME::from_ticks(t),
            r.ticks() == t,
    {
        FILETIME { dwLowDateTime: (t % 0x1_0000_0000) as u32, dwHighDateTime: (t / 0x1_0000_0000) as u32 }
    }

    /// The tick count of this FILETIME.
    pub fn tick_count(self) -> (r: u64)
        ensures
            r == self.ticks(),
    {
        self.dwHighDateTime as u64 * 0x1_0000_0000 + self.dwLowDateTime as u64
    }

    /// The FILETIME for an instant `nanos` nanoseconds after the UNIX epoch (precision below
    /// 100ns is dropped).
    /// The tick count goes through `u64`, as the conversion from `SystemTime` does, and so is
    /// truncated for instants more than about 58,000 years after the epoch.
    pub fn from_unix_nanos(nanos: u128) -> (r: FILETIME)
        requires
            ((nanos / 100) as u64) + MS_EPOCH <= u64::MAX,
        ensures
            r.ticks() == ((nanos / 100) as u64) + MS_EPOCH,
    {
        let q: u64 = #[verifier::truncate] ((nanos / 100) as u64);
        FILETIME::from_tick_count(q + MS_EPOCH)
    }

    /// Nanoseconds since the UNIX epoch, or `None` for instants before it.
    pub fn unix_nanos(self) -> (r: Option<u64>)
        requires
            self.ticks() >= MS_EPOCH ==> (self.ticks() - MS_EPOCH) * 100 <= u64::MAX,
        ensures
            r is Some <==> self.ticks() >= MS_EPOCH,
            r matches Some(n) ==> n == (self.ticks() - MS_EPOCH) * 100,
    {
        let ftime = self.tick_count();
        if ftime < MS_EPOCH {
            None
        } else {
            Some((ftime - MS_EPOCH) * RESOLUTION_SCALE)
        }
    }

    /// The instant this FILETIME denotes, or `None` for instants before the UNIX epoch.
    pub fn into_systime(self) -> (r: Option<SystemTime>)
        requires
            self.ticks() >= MS_EPOCH ==> (self.ticks() - MS_EPOCH) * 100 <= u64::MAX,
        ensures
            r is Some <==> self.ticks() >= MS_EPOCH,
            r matches Some(t) ==> unix_nanos_of(t) == Some(((self.ticks() - MS_EPOCH) * 100) as u128),
    {
        match self.unix_nanos() {
            Some(nanos) => Some(system_time_from_unix_nanos(nanos)),
            None => None,
        }
    }

    /// The FILETIME of the instant `t`.
    pub fn from_system_time(t: SystemTime) -> (r: FILETIME)
        requires
            unix_nanos_of(t) is Some,
            ((unix_nanos_of(t)->0 / 100) as u64) + MS_EPOCH <= u64::MAX,
        ensures
            r.ticks() == ((unix_nanos_of(t)->0 / 100) as u64) + MS_EPOCH,
    {
        match nanos_since_unix_epoch(&t) {
            Some(nanos) => FILETIME::from_unix_nanos(nanos),
            None => FILETIME::default(),
        }
    }

    /// The FILETIME of `t`, or `None` where `t` lies before the UNIX epoch or so far after it
    /// that its tick count does not fit in 64 bits.
    pub fn try_from_system_time(t: SystemTime) -> (r: Option<FILETIME>)
        ensures
            r is Some <==> unix_nanos_of(t) is Some && unix_nanos_of(t)->0 / 100 + MS_EPOCH <= u64::MAX,
            r matches Some(f) ==> f.ticks() == unix_nanos_of(t)->0 / 100 + MS_EPOCH,
    {
        match nanos_since_unix_epoch(&t) {
            Some(nanos) => {
                if nanos / 100 <= (u64::MAX - MS_EPOCH) as u128 {
                    Some(FILETIME::from_system_time(t))
                } else {
                    None
                }
            },
            None => None,
        }
    }

    /// The FILETIME for a clock reading of `reading` nanoseconds since the UNIX epoch (`None`
    /// for a clock before it). A reading that does not fit a FILETIME, or none, gives the epoch.
    pub fn from_clock_reading(reading: Option<u128>) -> (r: FILETIME)
        ensures
            r.ticks() == clock_reading_ticks(reading),
    {
        match reading {
            Some(nanos) => {
                if nanos / 100 <= (u64::MAX - MS_EPOCH) as u128 {
                    FILETIME::from_unix_nanos(nanos)
                } else {
                    FILETIME::default()
                }
            },
            None => FILETIME::default(),
        }
    }

    /// The current time, as `from_clock_reading` makes it of what the clock reads.
    pub fn now() -> (r: FILETIME)
        ensures
            exists|t: SystemTime| r.ticks() == clock_reading_ticks(#[trigger] unix_nanos_of(t)),
            r.ticks() >= MS_EPOCH,
    {
        let t = system_time_now();
        let reading = nanos_since_unix_epoch(&t);
        FILETIME::from_clock_reading(reading)
    }
}

/// The tick count that a clock reading of `reading` nanoseconds since the UNIX epoch gives: the
/// epoch plus whole 100ns intervals, or the epoch itself for no reading or one that does not fit.
pub open spec fn clock_reading_ticks(reading: Option<u128>) -> nat {
    match reading {
        Some(nanos) => if nanos / 100 + MS_EPOCH <= u64::MAX {
            (nanos / 100 + MS_EPOCH) as nat
        } else {
            MS_EPOCH as nat
        },
        None => MS_EPOCH as nat,
    }
}

/// Converting nanoseconds since the UNIX epoch to a FILETIME and back loses only the part
/// below 100ns.
pub proof fn lemma_unix_nanos_roundtrip(f: FILETIME, nanos: u128)
    requires
        nanos / 100 + MS_EPOCH <= u64::MAX,
        f.ticks() == ((nanos / 100) as u64) + MS_EPOCH,
    ensures
        f.ticks() >= MS_EPOCH,
        (f.ticks() - MS_EPOCH) * 100 == nanos - nanos % 100,
{
    assert(((nanos / 100) as u64) == nanos / 100);
    assert((nanos / 100) * 100 == nanos - nanos % 100) by (nonlinear_arith);
}

} // verus!
