//! The per-peer pipeline of outgoing Interests: a bounded queue and a bound
//! on the exchanges in flight.

use vstd::prelude::*;
use crate::error::Error;

verus! {

/// Limits of a pipeline.
#[derive(Debug, Clone, Copy, PartialEq, Eq, Structural)]
pub struct PipelineConfig {
    /// Most exchanges in flight at once.
    pub max_in_flight: usize,
    /// Deadline of one exchange in milliseconds.
    pub interest_timeout_ms: u64,
    /// Most requests waiting in the queue.
    pub max_queue_size: usize,
}

impl Default for PipelineConfig {
    /// Sixteen exchanges in flight, four seconds for each, a thousand
    /// requests waiting.
    fn default() -> (r: Self)
        ensures
            r == (PipelineConfig { max_in_flight: 16, interest_timeout_ms: 4000, max_queue_size: 1000 }),
    {
        PipelineConfig { max_in_flight: 16, interest_timeout_ms: 4000, max_queue_size: 1000 }
    }
}

/// Counters of a pipeline.
#[derive(Debug, Clone, Copy, PartialEq, Eq, Structural)]
pub struct PipelineStats {
    pub interests_sent: u64,
    pub data_received: u64,
    pub timeouts: u64,
    pub errors: u64,
    pub avg_rtt_ms: u64,
    pub queue_size: usize,
    pub in_flight: usize,
}

impl Default for PipelineStats {
    /// All counters at zero.
    fn default() -> (r: Self)
        ensures
            r == (PipelineStats {
                interests_sent: 0,
                data_received: 0,
                timeouts: 0,
                errors: 0,
                avg_rtt_ms: 0,
                queue_size: 0,
                in_flight: 0,
            }),
    {
        PipelineStats {
            interests_sent: 0,
            data_received: 0,
            timeouts: 0,
            errors: 0,
            avg_rtt_ms: 0,
            queue_size: 0,
            in_flight: 0,
        }
    }
}

/// How an exchange ended.
#[derive(Debug, Clone, Copy, PartialEq, Eq, Structural)]
pub enum Completion {
    /// Data arrived after `rtt_ms` milliseconds.
    Data { rtt_ms: u64 },
    /// The exchange failed.
    Failed,
    /// The deadline passed.
    TimedOut,
}

/// A counter one higher, unless it is at its limit.
pub open spec fn counted(c: u64) -> u64 {
    if c < u64::MAX {
        (c + 1) as u64
    } else {
        c
    }
}

/// The average round-trip time after a new sample: the sample itself where
/// nothing was averaged yet, else nine tenths of the old value and one tenth
/// of the sample.
pub open spec fn smoothed_rtt(avg: u64, rtt_ms: u64) -> u64 {
    if avg == 0 {
        rtt_ms
    } else {
        ((avg * 9 + rtt_ms) / 10) as u64
    }
}

/// The counters after an exchange ended.
pub open spec fn stats_after(s: PipelineStats, outcome: Completion) -> PipelineStats {
    let in_flight = if s.in_flight > 0 {
        (s.in_flight - 1) as usize
    } else {
        0
    };
    match outcome {
        Completion::Data { rtt_ms } => PipelineStats {
            data_received: counted(s.data_received),
            avg_rtt_ms: smoothed_rtt(s.avg_rtt_ms, rtt_ms),
            in_flight: in_flight,
            ..s
        },
        Completion::Failed => PipelineStats { errors: counted(s.errors), in_flight: in_flight, ..s },
        Completion::TimedOut => PipelineStats { timeouts: counted(s.timeouts), in_flight: in_flight, ..s },
    }
}

fn count_up(c: u64) -> (r: u64)
    ensures
        r == counted(c),
{
    if c < u64::MAX {
        c + 1
    } else {
        c
    }
}

/// The scheduling state of one pipeline: the requests waiting, oldest first,
/// each known by a token of the caller's, and the counters.
#[derive(Debug)]
pub struct InterestPipeline {
    config: PipelineConfig,
    queue: Vec<u64>,
    stats: PipelineStats,
}

impl InterestPipeline {
    /// The limits.
    pub closed spec fn config(&self) -> PipelineConfig {
        self.config
    }

    /// The waiting requests, oldest first.
    pub closed spec fn queue(&self) -> Seq<u64> {
        self.queue@
    }

    /// The counters.
    pub closed spec fn counters(&self) -> PipelineStats {
        self.stats
    }

    /// The pipeline keeps to its limits: no more exchanges in flight than
    /// allowed, no more requests waiting than allowed.
    pub open spec fn wf(&self) -> bool {
        &&& self.counters().in_flight <= self.config().max_in_flight
        &&& self.queue().len() <= self.config().max_queue_size
        &&& self.counters().queue_size == self.queue().len()
    }

    /// An empty pipeline with the given limits.
    pub fn new(config: PipelineConfig) -> (r: Self)
        ensures
            r.config() == config,
            r.queue().len() == 0,
            r.counters() == (PipelineStats {
                interests_sent: 0,
                data_received: 0,
                timeouts: 0,
                errors: 0,
                avg_rtt_ms: 0,
                queue_size: 0,
                in_flight: 0,
            }),
            r.wf(),
    {
        InterestPipeline { config, queue: Vec::new(), stats: PipelineStats::default() }
    }

    /// Queues a request; `QueueFull`, with nothing changed, where the queue
    /// holds as many as allowed.
    pub fn send_interest(&mut self, request: u64) -> (r: Result<(), Error>)
        requires
            old(self).wf(),
        ensures
            final(self).wf(),
            final(self).config() == old(self).config(),
            old(self).queue().len() < old(self).config().max_queue_size ==> r is Ok && final(self).queue() == old(self).queue().push(request) && final(self).counters() == (PipelineStats {
                queue_size: (old(self).queue().len() + 1) as usize,
                ..old(self).counters()
            }),
            old(self).queue().len() >= old(self).config().max_queue_size ==> r == Err::<(), Error>(
                Error::QueueFull,
            ) && final(self).queue() == old(self).queue() && final(self).counters() == old(self).counters(),
    {
        if self.queue.len() >= self.config.max_queue_size {
            return Err(Error::QueueFull);
        }
        self.queue.push(request);
        self.stats.queue_size = self.queue.len();
        Ok(())
    }

    /// Starts the oldest waiting request if the bound on exchanges in flight
    /// allows one more; `None`, with nothing changed, where nothing waits or
    /// the bound is reached.
    pub fn start_next(&mut self) -> (r: Option<u64>)
        requires
            old(self).wf(),
        ensures
            final(self).wf(),
            final(self).config() == old(self).config(),
            old(self).queue().len() > 0 && old(self).counters().in_flight < old(self).config().max_in_flight ==> r
                == Some(old(self).queue()[0]) && final(self).queue() == old(self).queue().skip(1) && final(self).counters() == (PipelineStats {
                interests_sent: counted(old(self).counters().interests_sent),
                in_flight: (old(self).counters().in_flight + 1) as usize,
                queue_size: (old(self).queue().len() - 1) as usize,
                ..old(self).counters()
            }),
            !(old(self).queue().len() > 0 && old(self).counters().in_flight < old(self).config().max_in_flight)
                ==> r is None && final(self).queue() == old(self).queue() && final(self).counters() == old(self).counters(),
    {
        if self.queue.len() == 0 || self.stats.in_flight >= self.config.max_in_flight {
            return None;
        }
        let request = self.queue.remove(0);
        assert(self.queue@ =~= old(self).queue@.skip(1));
        self.stats.in_flight = self.stats.in_flight + 1;
        self.stats.interests_sent = count_up(self.stats.interests_sent);
        self.stats.queue_size = self.queue.len();
        Some(request)
    }

    /// Records the end of an exchange.
    pub fn complete(&mut self, outcome: Completion)
        requires
            old(self).wf(),
        ensures
            final(self).wf(),
            final(self).config() == old(self).config(),
            final(self).queue() == old(self).queue(),
            final(self).counters() == stats_after(old(self).counters(), outcome),
    {
        if self.stats.in_flight > 0 {
            self.stats.in_flight = self.stats.in_flight - 1;
        }
        match outcome {
            Completion::Data { rtt_ms } => {
                self.stats.data_received = count_up(self.stats.data_received);
                self.stats.avg_rtt_ms = if self.stats.avg_rtt_ms == 0 {
                    rtt_ms
                } else {
                    (((self.stats.avg_rtt_ms as u128) * 9 + (rtt_ms as u128)) / 10) as u64
                };
            },
            Completion::Failed => {
                self.stats.errors = count_up(self.stats.errors);
            },
            Completion::TimedOut => {
                self.stats.timeouts = count_up(self.stats.timeouts);
            },
        }
    }

    /// The counters.
    pub fn stats(&self) -> (r: PipelineStats)
        ensures
            r == self.counters(),
    {
        self.stats
    }

    /// Drops every waiting request and says how many they were.
    pub fn shutdown(&mut self) -> (r: usize)
        requires
            old(self).wf(),
        ensures
            final(self).wf(),
            final(self).config() == old(self).config(),
            r == old(self).queue().len(),
            final(self).queue().len() == 0,
            final(self).counters() == (PipelineStats { queue_size: 0, ..old(self).counters() }),
    {
        let n = self.queue.len();
        self.queue.clear();
        self.stats.queue_size = 0;
        n
    }
}

/// Pipeline bound: whatever requests are queued, started and completed, in
/// whatever order, the exchanges in flight never exceed the configured
/// bound. Each operation keeps the pipeline well formed, and a well-formed
/// pipeline is within the bound.
pub proof fn lemma_in_flight_bounded(p: InterestPipeline)
    requires
        p.wf(),
    ensures
        p.counters().in_flight <= p.config().max_in_flight,
        p.queue().len() <= p.config().max_queue_size,
{
}

} // verus!
