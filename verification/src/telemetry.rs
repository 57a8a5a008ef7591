//! A client's run-time counters: packets sent and received, floods started,
//! flood responses, acks and nacks sent, and the round-trip times of acked
//! fragments. Measuring the times stays with the caller, which hands in
//! milliseconds.
use vstd::prelude::*;

verus! {

/// The counters a client keeps.
#[derive(Debug, Clone, Copy, PartialEq, Eq, Structural)]
pub enum Counter {
    PacketsSent,
    PacketsReceived,
    FloodsStarted,
    FloodResponses,
    AcksSent,
    NacksSent,
}

#[derive(Debug, Clone, Copy)]
pub struct Telemetry {
    pub packets_sent: u64,
    pub packets_received: u64,
    pub floods_started: u64,
    pub flood_responses: u64,
    pub acks_sent: u64,
    pub nacks_sent: u64,
    /// The sum of the round-trip times recorded, in milliseconds.
    pub ack_rtt_total_ms: u128,
    /// How many round-trip times were recorded.
    pub ack_rtt_count: u64,
    /// The last round-trip time recorded, in milliseconds.
    pub last_ack_ms: u64,
}

/// The value of counter `c` in `t`.
pub open spec fn counter_value(t: Telemetry, c: Counter) -> u64 {
    match c {
        Counter::PacketsSent => t.packets_sent,
        Counter::PacketsReceived => t.packets_received,
        Counter::FloodsStarted => t.floods_started,
        Counter::FloodResponses => t.flood_responses,
        Counter::AcksSent => t.acks_sent,
        Counter::NacksSent => t.nacks_sent,
    }
}

impl Telemetry {
    /// Every counter at zero.
    pub fn new() -> (r: Self)
        ensures
            forall|c: Counter| counter_value(r, c) == 0,
            r.ack_rtt_total_ms == 0,
            r.ack_rtt_count == 0,
            r.last_ack_ms == 0,
    {
        Telemetry {
            packets_sent: 0,
            packets_received: 0,
            floods_started: 0,
            flood_responses: 0,
            acks_sent: 0,
            nacks_sent: 0,
            ack_rtt_total_ms: 0,
            ack_rtt_count: 0,
            last_ack_ms: 0,
        }
    }

    /// The value of counter `c`.
    pub fn value(&self, c: Counter) -> (r: u64)
        ensures
            r == counter_value(*self, c),
    {
        match c {
            Counter::PacketsSent => self.packets_sent,
            Counter::PacketsReceived => self.packets_received,
            Counter::FloodsStarted => self.floods_started,
            Counter::FloodResponses => self.flood_responses,
            Counter::AcksSent => self.acks_sent,
            Counter::NacksSent => self.nacks_sent,
        }
    }

    /// Counts one more of `c`; the other counters and the times stay.
    pub fn count(&mut self, c: Counter)
        requires
            counter_value(*old(self), c) < u64::MAX,
        ensures
            forall|d: Counter|
                #[trigger] counter_value(*final(self), d) == if d == c {
                    counter_value(*old(self), d) + 1
                } else {
                    counter_value(*old(self), d) as int
                },
            final(self).ack_rtt_total_ms == old(self).ack_rtt_total_ms,
            final(self).ack_rtt_count == old(self).ack_rtt_count,
            final(self).last_ack_ms == old(self).last_ack_ms,
    {
        match c {
            Counter::PacketsSent => self.packets_sent = self.packets_sent + 1,
            Counter::PacketsReceived => self.packets_received = self.packets_received + 1,
            Counter::FloodsStarted => self.floods_started = self.floods_started + 1,
            Counter::FloodResponses => self.flood_responses = self.flood_responses + 1,
            Counter::AcksSent => self.acks_sent = self.acks_sent + 1,
            Counter::NacksSent => self.nacks_sent = self.nacks_sent + 1,
        }
    }

    /// Records the round-trip time of an acked fragment: it is added to the
    /// total, counted, and kept as the last one (cut to 64 bits).
    pub fn record_ack(&mut self, elapsed_ms: u128)
        requires
            old(self).ack_rtt_total_ms + elapsed_ms <= u128::MAX,
            old(self).ack_rtt_count < u64::MAX,
        ensures
            final(self).ack_rtt_total_ms == old(self).ack_rtt_total_ms + elapsed_ms,
            final(self).ack_rtt_count == old(self).ack_rtt_count + 1,
            final(self).last_ack_ms == elapsed_ms as u64,
            forall|c: Counter| #[trigger] counter_value(*final(self), c) == counter_value(*old(self), c),
    {
        self.ack_rtt_total_ms = self.ack_rtt_total_ms + elapsed_ms;
        self.ack_rtt_count = self.ack_rtt_count + 1;
        self.last_ack_ms = elapsed_ms as u64;
    }
}

} // verus!
