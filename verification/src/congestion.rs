//! Timing of a connection: the round-trip time and the time between
//! packets, each as the mean of its last samples, and the moment at which
//! the next status is due. Times are counted in nanoseconds from a start
//! that the caller picks.

use vstd::prelude::*;

verus! {

/// The number of samples that a mean is taken over.
pub const WINDOW: usize = 10;

/// The sum of `samples`.
pub open spec fn total(samples: Seq<u64>) -> nat
    decreases samples.len(),
{
    if samples.len() == 0 {
        0
    } else {
        total(samples.drop_last()) + samples.last() as nat
    }
}

/// The mean of `samples`, rounded down; 0 where there are none.
pub open spec fn mean(samples: Seq<u64>) -> nat {
    if samples.len() == 0 {
        0
    } else {
        total(samples) / samples.len()
    }
}

/// `samples` with `sample` at the end, cut to the last `WINDOW` of them.
pub open spec fn window(samples: Seq<u64>, sample: u64) -> Seq<u64> {
    if samples.len() >= WINDOW {
        samples.drop_first().push(sample)
    } else {
        samples.push(sample)
    }
}

/// The sum of samples is at most their number times the largest value.
pub proof fn lemma_total_bound(samples: Seq<u64>)
    ensures
        total(samples) <= samples.len() * u64::MAX,
    decreases samples.len(),
{
    if samples.len() > 0 {
        lemma_total_bound(samples.drop_last());
        assert(total(samples) <= (samples.len() - 1) * u64::MAX + u64::MAX);
        assert((samples.len() - 1) * u64::MAX + u64::MAX == samples.len() * u64::MAX)
            by (nonlinear_arith);
    }
}

/// The mean of the last samples of a quantity.
#[derive(Debug)]
pub struct MovingAverage {
    samples: Vec<u64>,
}

impl MovingAverage {
    /// The samples that the mean is taken over, oldest first.
    pub closed spec fn samples_spec(&self) -> Seq<u64> {
        self.samples@
    }

    /// There are at most `WINDOW` samples.
    pub open spec fn wf(&self) -> bool {
        self.samples_spec().len() <= WINDOW
    }

    /// A mean without samples.
    pub fn new() -> (r: MovingAverage)
        ensures
            r.wf(),
            r.samples_spec().len() == 0,
    {
        MovingAverage { samples: Vec::new() }
    }

    /// The number of samples.
    pub fn len(&self) -> (r: usize)
        ensures
            r == self.samples_spec().len(),
    {
        self.samples.len()
    }

    /// Takes in a sample. Where there are `WINDOW` samples already, the
    /// oldest one is dropped.
    pub fn push(&mut self, sample: u64)
        requires
            old(self).wf(),
        ensures
            final(self).wf(),
            final(self).samples_spec() == window(old(self).samples_spec(), sample),
    {
        if self.samples.len() >= WINDOW {
            self.samples.remove(0);
            proof {
                assert(self.samples@ =~= old(self).samples@.drop_first());
            }
        }
        self.samples.push(sample);
    }

    /// The mean of the samples, rounded down; 0 where there are none.
    pub fn mean(&self) -> (r: u64)
        requires
            self.wf(),
        ensures
            r == mean(self.samples_spec()),
    {
        let n: usize = self.samples.len();
        if n == 0 {
            return 0;
        }
        let mut sum: u128 = 0;
        let mut i: usize = 0;
        while i < n
            invariant
                i <= n == self.samples@.len(),
                n <= WINDOW,
                sum == total(self.samples@.subrange(0, i as int)),
                sum <= i * u64::MAX,
            decreases n - i,
        {
            proof {
                let next = self.samples@.subrange(0, i + 1);
                assert(next.drop_last() =~= self.samples@.subrange(0, i as int));
                assert(next.last() == self.samples@[i as int]);
                lemma_total_bound(next);
            }
            sum = sum + self.samples[i] as u128;
            i += 1;
        }
        proof {
            assert(self.samples@.subrange(0, n as int) =~= self.samples@);
            lemma_total_bound(self.samples@);
            assert(sum / (n as u128) <= u64::MAX) by (nonlinear_arith)
                requires
                    sum <= n * u64::MAX,
                    n > 0,
            ;
        }
        (sum / n as u128) as u64
    }
}

/// The moment that lies `ipt` times `packets` and then `rtt` behind `from`,
/// or the largest moment where that lies beyond it.
pub open spec fn deadline(from: u64, ipt: u64, packets: u32, rtt: u64) -> u64 {
    if from + ipt * packets + rtt > u64::MAX {
        u64::MAX
    } else {
        (from + ipt * packets + rtt) as u64
    }
}

/// The timing of one connection.
#[derive(Debug)]
pub struct CongestionInfo {
    rtt_start: Option<u64>,
    rtts: MovingAverage,
    last_ipt: Option<u64>,
    ipts: MovingAverage,
    last_notify: u64,
    packets_since_last_notify: u32,
    delay: Option<u64>,
    done: bool,
}

impl CongestionInfo {
    /// The moment at which the running round trip started.
    pub closed spec fn rtt_start_spec(&self) -> Option<u64> {
        self.rtt_start
    }

    /// The round-trip times measured, oldest first.
    pub closed spec fn rtts_spec(&self) -> Seq<u64> {
        self.rtts.samples_spec()
    }

    /// The moment at which the last packet came.
    pub closed spec fn last_packet_spec(&self) -> Option<u64> {
        self.last_ipt
    }

    /// The times between packets measured, oldest first.
    pub closed spec fn ipts_spec(&self) -> Seq<u64> {
        self.ipts.samples_spec()
    }

    /// The moment of the last status.
    pub closed spec fn last_notify_spec(&self) -> u64 {
        self.last_notify
    }

    /// The number of packets that came since the last status.
    pub closed spec fn packets_spec(&self) -> u32 {
        self.packets_since_last_notify
    }

    /// The moment at which the next status is due for lack of packets.
    pub closed spec fn delay_spec(&self) -> Option<u64> {
        self.delay
    }

    /// Whether the connection is shut down.
    pub closed spec fn done_spec(&self) -> bool {
        self.done
    }

    /// Both means are over at most `WINDOW` samples.
    pub open spec fn wf(&self) -> bool {
        self.rtts_spec().len() <= WINDOW && self.ipts_spec().len() <= WINDOW
    }

    /// The timing of a connection that starts at the moment `now`.
    pub fn new(now: u64) -> (r: CongestionInfo)
        ensures
            r.wf(),
            r.rtt_start_spec().is_none(),
            r.rtts_spec().len() == 0,
            r.last_packet_spec().is_none(),
            r.ipts_spec().len() == 0,
            r.last_notify_spec() == now,
            r.packets_spec() == 0,
            r.delay_spec().is_none(),
            !r.done_spec(),
    {
        CongestionInfo {
            rtt_start: None,
            rtts: MovingAverage::new(),
            last_ipt: None,
            ipts: MovingAverage::new(),
            last_notify: now,
            packets_since_last_notify: 0,
            delay: None,
            done: false,
        }
    }

    /// Starts to time a round trip at the moment `now`, unless one is timed
    /// already; returns whether it did.
    pub fn start_rtt(&mut self, now: u64) -> (started: bool)
        requires
            old(self).wf(),
        ensures
            final(self).wf(),
            started == old(self).rtt_start_spec().is_none(),
            final(self).rtt_start_spec() == if started {
                Some(now)
            } else {
                old(self).rtt_start_spec()
            },
            final(self).rtts_spec() == old(self).rtts_spec(),
            final(self).ipts_spec() == old(self).ipts_spec(),
            final(self).last_packet_spec() == old(self).last_packet_spec(),
            final(self).last_notify_spec() == old(self).last_notify_spec(),
            final(self).packets_spec() == old(self).packets_spec(),
            final(self).delay_spec() == old(self).delay_spec(),
            final(self).done_spec() == old(self).done_spec(),
    {
        if self.rtt_start.is_some() {
            return false;
        }
        self.rtt_start = Some(now);
        true
    }

    /// Ends the round trip that is timed at the moment `now` and returns its
    /// time, which is taken in as a sample: the time since it started, or 0
    /// where `now` lies before its start. Without a round trip that is
    /// timed, nothing is done.
    pub fn stop_rtt(&mut self, now: u64) -> (sample: Option<u64>)
        requires
            old(self).wf(),
        ensures
            final(self).wf(),
            final(self).rtt_start_spec().is_none(),
            sample == match old(self).rtt_start_spec() {
                Some(start) => Some(
                    if now >= start {
                        (now - start) as u64
                    } else {
                        0u64
                    },
                ),
                None => None,
            },
            final(self).rtts_spec() == match sample {
                Some(s) => window(old(self).rtts_spec(), s),
                None => old(self).rtts_spec(),
            },
            final(self).ipts_spec() == old(self).ipts_spec(),
            final(self).last_packet_spec() == old(self).last_packet_spec(),
            final(self).last_notify_spec() == old(self).last_notify_spec(),
            final(self).packets_spec() == old(self).packets_spec(),
            final(self).delay_spec() == old(self).delay_spec(),
            final(self).done_spec() == old(self).done_spec(),
    {
        match self.rtt_start.take() {
            Some(start) => {
                let sample: u64 = if now >= start {
                    now - start
                } else {
                    0
                };
                self.rtts.push(sample);
                Some(sample)
            },
            None => None,
        }
    }

    /// Whether a round trip is timed.
    pub fn is_rtt_running(&self) -> (r: bool)
        ensures
            r == self.rtt_start_spec().is_some(),
    {
        self.rtt_start.is_some()
    }

    /// The round-trip time: the mean of the last samples, or nothing where
    /// no round trip was timed yet.
    pub fn rtt(&self) -> (r: Option<u64>)
        requires
            self.wf(),
        ensures
            r == if self.rtts_spec().len() == 0 {
                None
            } else {
                Some(mean(self.rtts_spec()) as u64)
            },
            r matches Some(v) ==> v == mean(self.rtts_spec()),
    {
        if self.rtts.len() == 0 {
            None
        } else {
            Some(self.rtts.mean())
        }
    }

    /// The time between packets: the mean of the last samples, 0 where there
    /// is none.
    pub fn ipt(&self) -> (r: u64)
        requires
            self.wf(),
        ensures
            r == mean(self.ipts_spec()),
    {
        self.ipts.mean()
    }

    /// Notes that a packet came at the moment `now`. From the second packet
    /// on, the time since the packet before is taken in as a sample, 0 where
    /// `now` lies before it. The packet is counted.
    pub fn ipt_packet(&mut self, now: u64)
        requires
            old(self).wf(),
        ensures
            final(self).wf(),
            final(self).last_packet_spec() == Some(now),
            final(self).ipts_spec() == match old(self).last_packet_spec() {
                Some(last) => window(
                    old(self).ipts_spec(),
                    if now >= last {
                        (now - last) as u64
                    } else {
                        0u64
                    },
                ),
                None => old(self).ipts_spec(),
            },
            final(self).packets_spec() == if old(self).packets_spec() == u32::MAX {
                u32::MAX
            } else {
                (old(self).packets_spec() + 1) as u32
            },
            final(self).rtt_start_spec() == old(self).rtt_start_spec(),
            final(self).rtts_spec() == old(self).rtts_spec(),
            final(self).last_notify_spec() == old(self).last_notify_spec(),
            final(self).delay_spec() == old(self).delay_spec(),
            final(self).done_spec() == old(self).done_spec(),
    {
        match self.last_ipt {
            Some(last) => {
                let diff: u64 = if now >= last {
                    now - last
                } else {
                    0
                };
                self.ipts.push(diff);
            },
            None => {},
        }
        self.last_ipt = Some(now);
        if self.packets_since_last_notify < u32::MAX {
            self.packets_since_last_notify += 1;
        }
    }

    /// Sets the moment at which the next status is due for lack of packets:
    /// the time of `expected` packets and a round trip after the last
    /// status.
    pub fn update_delay(&mut self, expected: u32)
        requires
            old(self).wf(),
        ensures
            final(self).wf(),
            final(self).delay_spec() == Some(
                deadline(
                    old(self).last_notify_spec(),
                    mean(old(self).ipts_spec()) as u64,
                    expected,
                    mean(old(self).rtts_spec()) as u64,
                ),
            ),
            final(self).rtt_start_spec() == old(self).rtt_start_spec(),
            final(self).rtts_spec() == old(self).rtts_spec(),
            final(self).ipts_spec() == old(self).ipts_spec(),
            final(self).last_packet_spec() == old(self).last_packet_spec(),
            final(self).last_notify_spec() == old(self).last_notify_spec(),
            final(self).packets_spec() == old(self).packets_spec(),
            final(self).done_spec() == old(self).done_spec(),
    {
        let ipt: u64 = self.ipts.mean();
        let rtt: u64 = self.rtts.mean();
        assert(ipt as u128 * (expected as u128) <= u64::MAX as u128 * (u32::MAX as u128))
            by (nonlinear_arith)
            requires
                ipt <= u64::MAX,
                expected <= u32::MAX,
        ;
        let wide: u128 = self.last_notify as u128 + ipt as u128 * (expected as u128) + rtt as u128;
        let at: u64 = if wide > u64::MAX as u128 {
            u64::MAX
        } else {
            wide as u64
        };
        self.delay = Some(at);
    }

    /// Shuts the connection down: no status is due any more.
    pub fn shutdown(&mut self)
        ensures
            final(self).done_spec(),
            final(self).rtt_start_spec() == old(self).rtt_start_spec(),
            final(self).rtts_spec() == old(self).rtts_spec(),
            final(self).ipts_spec() == old(self).ipts_spec(),
            final(self).last_packet_spec() == old(self).last_packet_spec(),
            final(self).last_notify_spec() == old(self).last_notify_spec(),
            final(self).packets_spec() == old(self).packets_spec(),
            final(self).delay_spec() == old(self).delay_spec(),
    {
        self.done = true;
    }

    /// Whether a status is due at the moment `now`, `expected` being the
    /// number of packets after which one is: the connection is not shut
    /// down, a moment for the next status is set, and that moment has come
    /// or as many packets as expected came since the last status.
    pub open spec fn due(&self, now: u64, expected: u32) -> bool {
        &&& !self.done_spec()
        &&& self.delay_spec() matches Some(at) && (now >= at || self.packets_spec() >= expected)
    }

    /// Says whether a status is due at the moment `now`. Where one is, the
    /// packets are counted anew from `now`, and the moment for the next
    /// status is set from there.
    pub fn poll(&mut self, now: u64, expected: u32) -> (r: bool)
        requires
            old(self).wf(),
        ensures
            final(self).wf(),
            r == old(self).due(now, expected),
            final(self).rtt_start_spec() == old(self).rtt_start_spec(),
            final(self).rtts_spec() == old(self).rtts_spec(),
            final(self).ipts_spec() == old(self).ipts_spec(),
            final(self).last_packet_spec() == old(self).last_packet_spec(),
            final(self).done_spec() == old(self).done_spec(),
            r ==> {
                &&& final(self).packets_spec() == 0
                &&& final(self).last_notify_spec() == now
                &&& final(self).delay_spec() == Some(
                    deadline(
                        now,
                        mean(old(self).ipts_spec()) as u64,
                        expected,
                        mean(old(self).rtts_spec()) as u64,
                    ),
                )
            },
            !r ==> {
                &&& final(self).packets_spec() == old(self).packets_spec()
                &&& final(self).last_notify_spec() == old(self).last_notify_spec()
                &&& final(self).delay_spec() == old(self).delay_spec()
            },
    {
        if self.done {
            return false;
        }
        let at: u64 = match self.delay {
            Some(at) => at,
            None => {
                return false;
            },
        };
        if now >= at || self.packets_since_last_notify >= expected {
            self.packets_since_last_notify = 0;
            self.last_notify = now;
            self.update_delay(expected);
            true
        } else {
            false
        }
    }
}

} // verus!
