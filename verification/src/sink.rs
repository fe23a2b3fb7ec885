//! The sink's telemetry state: a count of records seen since the last
//! report boundary and the timestamp of that boundary. The sink proper —
//! the thread that drains the channel and writes records out — lives with
//! the I/O around the library; every decision it takes about reporting is
//! the transition below.

use vstd::prelude::*;

verus! {

/// One wall-clock second, in milliseconds.
pub open spec fn report_window_ms() -> u64 {
    1000
}

/// The counter starts idle (no records seen, no boundary timestamp); the
/// first record sets the boundary; from then on a record that arrives a
/// full window after the boundary triggers a report and resets the count.
pub struct ThroughputCounter {
    /// Records counted since the last report boundary.
    pub counter: u64,
    /// The last report boundary, in milliseconds, or `None` before the
    /// first record.
    pub last: Option<u64>,
}

/// The transition taken for one received record at time `now` (in
/// milliseconds): the new counter state, and the records-per-window count
/// to report, if this record closes a window.
pub open spec fn counter_step(st: ThroughputCounter, now: u64) -> (ThroughputCounter, Option<u64>)
    recommends
        st.counter < u64::MAX,
{
    match st.last {
        None => (ThroughputCounter { counter: (st.counter + 1) as u64, last: Some(now) }, None),
        Some(l) => {
            if l + report_window_ms() <= now {
                (ThroughputCounter { counter: 0, last: Some(now) }, Some((st.counter + 1) as u64))
            } else {
                (ThroughputCounter { counter: (st.counter + 1) as u64, last: st.last }, None)
            }
        },
    }
}

/// Law: a report can only be triggered by a record arriving, and it always
/// counts at least that record — a window in which no record was produced
/// emits no report line.
pub proof fn lemma_report_counts_a_record(st: ThroughputCounter, now: u64)
    requires
        st.counter < u64::MAX,
    ensures
        counter_step(st, now).1 is Some ==> counter_step(st, now).1.unwrap() >= 1,
        counter_step(st, now).1 is Some ==> counter_step(st, now).1.unwrap() == st.counter + 1,
{
}

impl ThroughputCounter {
    /// A fresh, idle counter: nothing seen, no boundary.
    pub fn new() -> (r: Self)
        ensures
            r.counter == 0,
            r.last is None,
    {
        ThroughputCounter { counter: 0, last: None }
    }

    /// Count one received record at time `now_ms`; the result is the
    /// records-per-window figure to report, or `None` if no window closed.
    pub fn on_record(&mut self, now_ms: u64) -> (r: Option<u64>)
        requires
            old(self).counter < u64::MAX,
        ensures
            (*final(self), r) == counter_step(*old(self), now_ms),
            r is Some ==> r.unwrap() >= 1,
    {
        let counted = self.counter + 1;
        match self.last {
            None => {
                self.counter = counted;
                self.last = Some(now_ms);
                None
            },
            Some(l) => {
                if l <= now_ms && now_ms - l >= 1000 {
                    self.counter = 0;
                    self.last = Some(now_ms);
                    Some(counted)
                } else {
                    self.counter = counted;
                    None
                }
            },
        }
    }
}

} // verus!
