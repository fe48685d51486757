use vstd::prelude::*;

verus! {

/// An absolute point in time, reduced to the two things the reports read of
/// it: the calendar month it falls in and the number of seconds since the
/// epoch, both in the fixed local time reference of the log.
///
/// The month number alone identifies a month of the supported window (no two
/// years of the window share a month number), so the filter keys on it
/// directly.
#[derive(Clone, Copy, PartialEq, Eq, Structural)]
pub struct Timestamp {
    /// Calendar month, 1 through 12.
    pub month: u32,
    /// Seconds since the epoch in the local time reference. The supported
    /// window lies entirely after the epoch, so this is never negative.
    pub epoch_seconds: u64,
}

impl Timestamp {
    /// A well-formed timestamp names a real calendar month.
    pub open spec fn wf(self) -> bool {
        1 <= self.month <= 12
    }

    pub fn new(month: u32, epoch_seconds: u64) -> (t: Timestamp)
        requires
            1 <= month <= 12,
        ensures
            t.month == month,
            t.epoch_seconds == epoch_seconds,
            t.wf(),
    {
        Timestamp { month, epoch_seconds }
    }
}

/// One normalized viewing event: who watched which channel, starting when,
/// for how long. Records are produced once by the ingestion side and are
/// never mutated by the reports.
pub struct Record {
    /// Identifies the viewer; positive.
    pub customer_id: u32,
    /// Name of the channel or program; non-empty, grouped by exact value
    /// equality.
    pub channel: String,
    /// When the viewing started.
    pub timestamp: Timestamp,
    /// How many seconds were watched.
    pub duration_seconds: u32,
}

impl Record {
    /// The invariants the ingestion side establishes: a positive customer,
    /// a non-empty channel name, a well-formed timestamp.
    pub open spec fn wf(self) -> bool {
        &&& self.customer_id > 0
        &&& self.channel@.len() > 0
        &&& self.timestamp.wf()
    }

    pub fn new(customer_id: u32, channel: String, timestamp: Timestamp, duration_seconds: u32) -> (r: Record)
        requires
            customer_id > 0,
            channel@.len() > 0,
            timestamp.wf(),
        ensures
            r.customer_id == customer_id,
            r.channel == channel,
            r.timestamp == timestamp,
            r.duration_seconds == duration_seconds,
            r.wf(),
    {
        Record { customer_id, channel, timestamp, duration_seconds }
    }
}

impl Clone for Record {
    fn clone(&self) -> (r: Record)
        ensures
            r == *self,
    {
        Record {
            customer_id: self.customer_id,
            channel: self.channel.clone(),
            timestamp: self.timestamp,
            duration_seconds: self.duration_seconds,
        }
    }
}

} // verus!
