use std::collections::VecDeque;
use std::time::{Duration, Instant};

use vstd::prelude::*;

verus! {

/// The number of recent samples kept when estimating latency.
pub const HISTORY_LEN: usize = 6;

/// The latency assumed for a new link, in nanoseconds (100 ms).
pub const DEFAULT_LATENCY_NANOS: u128 = 100_000_000;

/// The latency above which a link is dropped, in nanoseconds (2 s).
pub const MAX_LATENCY_NANOS: u128 = 2_000_000_000;

/// The most nanoseconds a `Duration` can hold.
pub const MAX_DURATION_NANOS: u128 = 18_446_744_073_709_551_615_999_999_999;

#[verifier::external_type_specification]
#[verifier::external_body]
pub struct ExInstant(Instant);

/// The current instant.
///
/// Calls `std::time::Instant::now`; nothing is stated of the instant.
#[verifier::external_body]
fn instant_now() -> Instant {
    Instant::now()
}

/// The time since `start`.
///
/// Calls `std::time::Instant::elapsed`; nothing is stated of the span, which
/// depends on the clock.
#[verifier::external_body]
fn instant_elapsed(start: &Instant) -> Duration {
    start.elapsed()
}

/// The nanoseconds of a span.
///
/// Calls `std::time::Duration::as_nanos`; states only the bound that every
/// `Duration` meets, since a `Duration` is opaque here.
#[verifier::external_body]
fn duration_nanos(d: &Duration) -> (r: u128)
    ensures
        r <= MAX_DURATION_NANOS,
{
    d.as_nanos()
}

/// The sum of the samples.
pub open spec fn sum(s: Seq<u128>) -> int
    decreases s.len(),
{
    if s.len() == 0 {
        0
    } else {
        s[0] + sum(s.drop_first())
    }
}

/// The estimated latency of samples: their average, rounded down, or the
/// default where there are none.
pub open spec fn spec_latency(s: Seq<u128>) -> int {
    if s.len() == 0 {
        DEFAULT_LATENCY_NANOS as int
    } else {
        sum(s) / (s.len() as int)
    }
}

/// The samples after a new sample: it comes first, and only the most recent
/// `HISTORY_LEN` are kept.
pub open spec fn spec_add_sample(s: Seq<u128>, sample: u128) -> Seq<u128> {
    let t = seq![sample] + s;
    if t.len() > HISTORY_LEN {
        t.subrange(0, HISTORY_LEN as int)
    } else {
        t
    }
}

/// The history of a new link: `HISTORY_LEN` samples of the default latency.
pub open spec fn default_history() -> Seq<u128> {
    Seq::new(HISTORY_LEN as nat, |i: int| DEFAULT_LATENCY_NANOS)
}

/// The ping timing of a link: when the last unanswered ping was sent, and the
/// latencies of the recent answers, most recent first.
pub struct LatencyHistory {
    ping: Option<Instant>,
    recent: VecDeque<u128>,
}

/// The content of a [LatencyHistory].
#[verifier::ext_equal]
pub struct LatencyView {
    pub pinging: bool,
    pub recent: Seq<u128>,
}

impl View for LatencyHistory {
    type V = LatencyView;

    closed spec fn view(&self) -> LatencyView {
        LatencyView { pinging: self.ping is Some, recent: self.recent@ }
    }
}

impl LatencyView {
    /// At most `HISTORY_LEN` samples, each one a span a `Duration` can hold.
    pub open spec fn wf(self) -> bool {
        &&& self.recent.len() <= HISTORY_LEN
        &&& forall|i: int| 0 <= i < self.recent.len() ==> #[trigger] self.recent[i] <= MAX_DURATION_NANOS
    }
}

/// The sum of at most `HISTORY_LEN` bounded samples fits in a `u128`.
proof fn lemma_sum_bound(s: Seq<u128>)
    requires
        forall|i: int| 0 <= i < s.len() ==> #[trigger] s[i] <= MAX_DURATION_NANOS,
    ensures
        0 <= sum(s) <= s.len() * MAX_DURATION_NANOS,
    decreases s.len(),
{
    if s.len() > 0 {
        let t = s.drop_first();
        assert forall|i: int| 0 <= i < t.len() implies #[trigger] t[i] <= MAX_DURATION_NANOS by {
            assert(t[i] == s[i + 1]);
        }
        lemma_sum_bound(t);
        assert(s[0] <= MAX_DURATION_NANOS);
    }
}

impl LatencyHistory {
    /// The history of a new link.
    pub fn new() -> (r: LatencyHistory)
        ensures
            r@ == (LatencyView { pinging: false, recent: default_history() }),
            r@.wf(),
    {
        let mut recent: VecDeque<u128> = VecDeque::new();
        let mut i: usize = 0;
        while i < HISTORY_LEN
            invariant
                i <= HISTORY_LEN,
                recent@ =~= Seq::new(i as nat, |j: int| DEFAULT_LATENCY_NANOS),
            decreases HISTORY_LEN - i,
        {
            recent.push_back(DEFAULT_LATENCY_NANOS);
            i = i + 1;
        }
        let r = LatencyHistory { ping: None, recent };
        assert(r@ =~= LatencyView { pinging: false, recent: default_history() });
        r
    }

    /// Records a latency sample.
    pub fn add_latency(&mut self, latency: u128)
        requires
            old(self)@.wf(),
            latency <= MAX_DURATION_NANOS,
        ensures
            final(self)@ == (LatencyView { recent: spec_add_sample(old(self)@.recent, latency), ..old(self)@ }),
            final(self)@.wf(),
    {
        self.recent.push_front(latency);
        self.recent.truncate(HISTORY_LEN);
        assert(self@ =~= LatencyView { recent: spec_add_sample(old(self)@.recent, latency), ..old(self)@ });
    }

    /// The estimated latency in nanoseconds: the average of the recent
    /// samples, rounded down, or the default where there are none.
    pub fn latency(&self) -> (r: u128)
        requires
            self@.wf(),
        ensures
            r == spec_latency(self@.recent),
    {
        let n = self.recent.len();
        if n == 0 {
            return DEFAULT_LATENCY_NANOS;
        }
        proof {
            lemma_sum_bound(self@.recent);
            assert(self@.recent.len() * MAX_DURATION_NANOS <= 6 * MAX_DURATION_NANOS) by (nonlinear_arith)
                requires
                    self@.recent.len() <= 6,
            ;
        }
        let mut total: u128 = 0;
        let mut i: usize = 0;
        assert(self@.recent.skip(0) =~= self@.recent);
        while i < n
            invariant
                n == self@.recent.len(),
                self@.wf(),
                i <= n,
                total + sum(self@.recent.skip(i as int)) == sum(self@.recent),
                sum(self@.recent) <= 6 * MAX_DURATION_NANOS,
                0 <= sum(self@.recent.skip(i as int)),
            decreases n - i,
        {
            let ghost rest = self@.recent.skip(i as int);
            assert(rest.drop_first() =~= self@.recent.skip(i + 1));
            assert(rest[0] == self@.recent[i as int]);
            proof {
                let t = self@.recent.skip(i + 1);
                assert forall|k: int| 0 <= k < t.len() implies #[trigger] t[k] <= MAX_DURATION_NANOS by {
                    assert(t[k] == self@.recent[i + 1 + k]);
                }
                lemma_sum_bound(t);
            }
            total = total + self.recent[i];
            i = i + 1;
        }
        assert(self@.recent.skip(n as int) =~= Seq::<u128>::empty());
        total / (n as u128)
    }

    /// Whether a ping is awaiting its answer.
    pub fn is_pinging(&self) -> (r: bool)
        ensures
            r == self@.pinging,
    {
        self.ping.is_some()
    }

    /// Ends the pending ping, if there is one: the time since it was sent is
    /// recorded as a latency sample.
    pub fn end_ping(&mut self)
        requires
            old(self)@.wf(),
        ensures
            ping_ended(old(self)@, final(self)@),
    {
        let ping = self.ping.take();
        match ping {
            Some(start) => {
                let elapsed = instant_elapsed(&start);
                let sample = duration_nanos(&elapsed);
                self.add_latency(sample);
            },
            None => {
                assert(self@ =~= old(self)@);
            },
        }
    }

    /// Starts a ping: the pending one, if any, is ended first, and the time of
    /// this one is noted.
    pub fn begin_ping(&mut self)
        requires
            old(self)@.wf(),
        ensures
            ping_begun(old(self)@, final(self)@),
    {
        self.end_ping();
        self.ping = Some(instant_now());
    }
}

/// What ending a ping does to a history: no ping is pending afterwards, and a
/// pending one was recorded as some sample a `Duration` can hold.
pub open spec fn ping_ended(before: LatencyView, after: LatencyView) -> bool {
    &&& after.wf()
    &&& !after.pinging
    &&& !before.pinging ==> after == before
    &&& before.pinging ==> exists|sample: u128|
        sample <= MAX_DURATION_NANOS && after.recent == spec_add_sample(before.recent, sample)
}

/// What starting a ping does to a history: the pending one is ended, and a
/// ping is pending afterwards.
pub open spec fn ping_begun(before: LatencyView, after: LatencyView) -> bool {
    &&& after.pinging
    &&& ping_ended(before, LatencyView { pinging: false, ..after })
}

} // verus!
