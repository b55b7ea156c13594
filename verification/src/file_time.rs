//! Time stamps of files.
use std::cmp::Ordering;
use std::time::{Duration, SystemTime, UNIX_EPOCH};

use vstd::prelude::*;

verus! {

/// The clock of the system.
#[verifier::external_type_specification]
#[verifier::external_body]
pub struct ExSystemTime(SystemTime);

/// How many nanoseconds a duration lasts, as `Duration::as_nanos` tells.
pub uninterp spec fn duration_nanos(duration: Duration) -> nat;

/// How many nanoseconds after the Unix epoch a time lies, as `SystemTime::duration_since` tells; less
/// than zero for a time before it.
pub uninterp spec fn nanos_since_epoch(time: SystemTime) -> int;

/// `Duration::as_secs` returns the whole seconds of a duration.
pub assume_specification[ Duration::as_secs ](duration: &Duration) -> (seconds: u64)
    ensures
        seconds == duration_nanos(*duration) / 1_000_000_000,
;

/// `Duration::subsec_nanos` returns what a duration lasts beyond its whole seconds.
pub assume_specification[ Duration::subsec_nanos ](duration: &Duration) -> (nanos: u32)
    ensures
        nanos == duration_nanos(*duration) % 1_000_000_000,
;

/// `SystemTime::now` reads the clock, which may show any time.
pub assume_specification[ SystemTime::now ]() -> SystemTime;

/// Calls `SystemTime::duration_since` with the Unix epoch. It returns how long after the epoch the
/// time lies, or an error that tells how long before it.
#[verifier::external_body]
fn outside_since_epoch(time: SystemTime) -> (result: Result<Duration, Duration>)
    ensures
        match result {
            Ok(after) => nanos_since_epoch(time) == duration_nanos(after),
            Err(before) => nanos_since_epoch(time) == -duration_nanos(before) && nanos_since_epoch(
                time,
            ) < 0,
        },
{
    match time.duration_since(UNIX_EPOCH) {
        Ok(after) => Ok(after),
        Err(error) => Err(error.duration()),
    }
}

/// A time stamp relative to the Unix epoch.
#[derive(Clone, Copy, Debug, PartialEq, Eq, Structural, Ord, Hash)]
pub struct FileTime {
    seconds: i64,
    nanoseconds: u32,
}

impl View for FileTime {
    type V = int;

    /// The nanoseconds after the epoch.
    open spec fn view(&self) -> int {
        self.whole_seconds() * 1_000_000_000 + self.nanos_forward()
    }
}

/// The number of nanoseconds is that of a time whose distance from the epoch, in whole seconds, a time
/// stamp can hold.
pub open spec fn in_range(nanos: int) -> bool {
    let distance = if nanos < 0 {
        -nanos
    } else {
        nanos
    };
    distance / 1_000_000_000 <= i64::MAX
}

impl FileTime {
    /// The whole seconds relative to the epoch.
    pub closed spec fn whole_seconds(&self) -> i64 {
        self.seconds
    }

    /// The nanoseconds forward from the whole seconds.
    pub closed spec fn nanos_forward(&self) -> u32 {
        self.nanoseconds
    }

    /// The nanoseconds make less than a second.
    pub open spec fn wf(&self) -> bool {
        self.nanos_forward() < 1_000_000_000
    }

    /// Returns the current time, or `None` if the clock is out of the range of time stamps. Which time
    /// the clock shows is left open.
    pub fn now() -> (time: Option<FileTime>)
        ensures
            exists|clock: SystemTime|
                {
                    let nanos = #[trigger] nanos_since_epoch(clock);
                    match time {
                        Some(time) => in_range(nanos) && time.wf() && time@ == nanos,
                        None => !in_range(nanos),
                    }
                },
    {
        let clock = SystemTime::now();
        FileTime::try_from_system_time(clock)
    }

    /// Returns whole seconds relative to the Unix epoch.
    pub fn unix_seconds(&self) -> (seconds: i64)
        ensures
            seconds == self.whole_seconds(),
    {
        self.seconds
    }

    /// Returns nanoseconds forward from the whole-second value.
    pub fn nanoseconds(&self) -> (nanoseconds: u32)
        ensures
            nanoseconds == self.nanos_forward(),
    {
        self.nanoseconds
    }

    /// The time stamp of a time that lies this long after the epoch, or before it.
    pub fn from_distance(before: bool, seconds: u64, nanos: u32) -> (time: FileTime)
        requires
            seconds <= i64::MAX,
            nanos < 1_000_000_000,
        ensures
            time.wf(),
            time@ == if before {
                -(seconds * 1_000_000_000 + nanos)
            } else {
                seconds * 1_000_000_000 + nanos
            },
    {
        let whole: i64 = seconds as i64;
        if !before {
            return FileTime { seconds: whole, nanoseconds: nanos };
        }
        if nanos == 0 {
            FileTime { seconds: -whole, nanoseconds: 0 }
        } else {
            FileTime { seconds: -whole - 1, nanoseconds: 1_000_000_000 - nanos }
        }
    }

    /// Returns the time stamp of `time`.
    pub fn from_system_time(time: SystemTime) -> (stamp: FileTime)
        requires
            in_range(nanos_since_epoch(time)),
        ensures
            stamp.wf(),
            stamp@ == nanos_since_epoch(time),
            stamp.whole_seconds() == nanos_since_epoch(time) / 1_000_000_000,
            stamp.nanos_forward() == nanos_since_epoch(time) % 1_000_000_000,
    {
        let (before, distance) = match outside_since_epoch(time) {
            Ok(after) => (false, after),
            Err(before) => (true, before),
        };
        FileTime::from_distance(before, distance.as_secs(), distance.subsec_nanos())
    }

    /// Returns the time stamp of `time`, or `None` if it is out of range.
    pub fn try_from_system_time(time: SystemTime) -> (stamp: Option<FileTime>)
        ensures
            match stamp {
                Some(stamp) => {
                    &&& in_range(nanos_since_epoch(time))
                    &&& stamp.whole_seconds() == nanos_since_epoch(time) / 1_000_000_000
                    &&& stamp.nanos_forward() == nanos_since_epoch(time) % 1_000_000_000
                    &&& stamp.wf()
                    &&& stamp@ == nanos_since_epoch(time)
                },
                None => !in_range(nanos_since_epoch(time)),
            },
    {
        let distance = match outside_since_epoch(time) {
            Ok(after) => after,
            Err(before) => before,
        };
        if distance.as_secs() > i64::MAX as u64 {
            return None;
        }
        Some(FileTime::from_system_time(time))
    }
}

impl PartialOrd for FileTime {
    fn partial_cmp(&self, other: &FileTime) -> (order: Option<Ordering>) {
        if self.seconds < other.seconds {
            Some(Ordering::Less)
        } else if self.seconds > other.seconds {
            Some(Ordering::Greater)
        } else if self.nanoseconds < other.nanoseconds {
            Some(Ordering::Less)
        } else if self.nanoseconds > other.nanoseconds {
            Some(Ordering::Greater)
        } else {
            Some(Ordering::Equal)
        }
    }
}

impl vstd::std_specs::cmp::PartialOrdSpecImpl for FileTime {
    open spec fn obeys_partial_cmp_spec() -> bool {
        true
    }

    open spec fn partial_cmp_spec(&self, other: &FileTime) -> Option<Ordering> {
        if self.whole_seconds() < other.whole_seconds() {
            Some(Ordering::Less)
        } else if self.whole_seconds() > other.whole_seconds() {
            Some(Ordering::Greater)
        } else if self.nanos_forward() < other.nanos_forward() {
            Some(Ordering::Less)
        } else if self.nanos_forward() > other.nanos_forward() {
            Some(Ordering::Greater)
        } else {
            Some(Ordering::Equal)
        }
    }
}

/// A time is in range exactly if its distance from the epoch is less than two to the power of 63 seconds,
/// before it or after it.
pub proof fn lemma_what_is_in_range(nanos: int)
    ensures
        in_range(nanos) <==> -9_223_372_036_854_775_808_000_000_000 < nanos
            < 9_223_372_036_854_775_808_000_000_000,
{
}

/// Time stamps are ordered as the times that they stand for, and two of them are the same exactly if
/// they stand for the same time.
pub proof fn lemma_order_is_that_of_time(a: FileTime, b: FileTime)
    requires
        a.wf(),
        b.wf(),
    ensures
        vstd::std_specs::cmp::PartialOrdSpec::partial_cmp_spec(&a, &b) == Some(
            if a@ < b@ {
                Ordering::Less
            } else if a@ > b@ {
                Ordering::Greater
            } else {
                Ordering::Equal
            },
        ),
        a == b <==> a@ == b@,
{
}

/// A time stamp is normalized: its seconds are the last whole second not after the time, and its
/// nanoseconds are what has passed since.
pub proof fn lemma_time_stamps_are_normalized(a: FileTime)
    requires
        a.wf(),
    ensures
        a.whole_seconds() == a@ / 1_000_000_000,
        a.nanos_forward() == a@ % 1_000_000_000,
{
}

} // verus!
